//! Laws of the classifier, each proved from the public contracts:
//! the entropy of a one-label dataset is zero; the entropy of an evenly
//! split two-label dataset is exactly one bit; a dataset pure enough for
//! the threshold always builds a single leaf; and the attribute selector
//! picks the first attribute of maximal gain ratio.

use vstd::prelude::*;

verus! {

use crate::counting::{
    count_of,
    distinct_of,
    sum_counts,
    lemma_count_pos,
    lemma_distinct_membership,
    lemma_distinct_no_dup,
    lemma_partition,
};
use crate::data::{EntryView, group_of, labels_of, values_at};
use crate::entropy::{
    entropy_sum,
    term_of,
    spec_enthropy,
    spec_gain,
    spec_best_gain,
    spec_best_attr,
    lemma_distinct_nonempty,
};
use crate::classifier::{
    tree_ok,
    pure_enough,
    leaf_prob_ok,
    width_of,
    label_count,
    best_label_in,
    spec_majority_label,
    find_child,
    spec_predict,
    NodeType,
    TreeNode,
};
use crate::fixed::{spec_log2_fix, lemma_log2_fix_self, lemma_log2_fix_double};
use vstd::arithmetic::div_mod::{lemma_div_of0, lemma_div_multiples_vanish};

/// A dataset whose records all share one label has entropy exactly zero.
pub proof fn lemma_entropy_single_label(d: Seq<EntryView>)
    requires
        d.len() >= 1,
        forall|i: int| 0 <= i < d.len() ==> #[trigger] labels_of(d)[i] == labels_of(d)[0],
    ensures
        spec_enthropy(d) == 0,
{
    let ls = labels_of(d);
    lemma_distinct_constant(ls);
    let dist = distinct_of(ls);
    lemma_partition(ls);
    assert(dist.drop_last().len() == 0);
    assert(sum_counts(dist.drop_last(), ls) == 0);
    assert(sum_counts(dist, ls) == count_of(ls, dist.last()));
    let n = ls.len();
    lemma_log2_fix_self(n);
    assert(term_of(n, n) == (n * 0) / n);
    assert(n * 0 == 0) by (nonlinear_arith);
    lemma_div_of0(n as int);
    assert(entropy_sum(dist.drop_last(), ls) == 0);
    assert(entropy_sum(dist, ls) == entropy_sum(dist.drop_last(), ls) + term_of(
        count_of(ls, dist.last()),
        n,
    ));
}

/// The distinct values of a constant sequence are that one value.
proof fn lemma_distinct_constant(s: Seq<Seq<char>>)
    requires
        s.len() >= 1,
        forall|i: int| 0 <= i < s.len() ==> #[trigger] s[i] == s[0],
    ensures
        distinct_of(s) =~= seq![s[0]],
    decreases s.len(),
{
    let dl = s.drop_last();
    if dl.len() == 0 {
        assert(distinct_of(dl).len() == 0);
        assert(distinct_of(s) == distinct_of(dl).push(s.last()));
        assert(s.last() == s[0]);
    } else {
        assert(forall|i: int| 0 <= i < dl.len() ==> #[trigger] dl[i] == dl[0]);
        lemma_distinct_constant(dl);
        assert(dl[0] == s[0]);
        assert(s.last() == s[s.len() - 1]);
        assert(s.last() == s[0]);
        assert(distinct_of(dl).contains(s.last())) by {
            assert(distinct_of(dl)[0] == s[0]);
        }
        assert(distinct_of(s) == distinct_of(dl));
    }
}

/// A dataset of two labels at exactly half each has entropy exactly one
/// bit, in fixed point: `SCALE`.
pub proof fn lemma_entropy_two_even(d: Seq<EntryView>, l1: Seq<char>, l2: Seq<char>)
    requires
        d.len() >= 1,
        l1 != l2,
        count_of(labels_of(d), l1) == count_of(labels_of(d), l2),
        forall|i: int| 0 <= i < d.len() ==> #[trigger] labels_of(d)[i] == l1 || labels_of(d)[i] == l2,
    ensures
        spec_enthropy(d) == 65536,
{
    let ls = labels_of(d);
    let dist = distinct_of(ls);
    let n = ls.len();
    let c = count_of(ls, l1);
    lemma_distinct_no_dup(ls);
    lemma_partition(ls);
    // both labels occur: the first record carries one of them, and counts are equal
    assert(ls[0] == l1 || ls[0] == l2);
    assert(ls.contains(ls[0]));
    lemma_count_pos(ls, ls[0]);
    lemma_count_pos(ls, l1);
    lemma_count_pos(ls, l2);
    assert(c >= 1);
    assert(ls.contains(l1) && ls.contains(l2));
    lemma_distinct_membership(ls, l1);
    lemma_distinct_membership(ls, l2);
    // the distinct labels are exactly two, one of each
    assert forall|k: int| 0 <= k < dist.len() implies dist[k] == l1 || dist[k] == l2 by {
        assert(dist.contains(dist[k]));
        lemma_distinct_membership(ls, dist[k]);
        let i = choose|i: int| 0 <= i < ls.len() && ls[i] == dist[k];
        assert(ls[i] == l1 || ls[i] == l2);
    }
    let i1 = choose|i: int| 0 <= i < dist.len() && dist[i] == l1;
    let i2 = choose|i: int| 0 <= i < dist.len() && dist[i] == l2;
    assert(dist.len() >= 2);
    assert(dist.len() <= 2) by {
        if dist.len() > 2 {
            assert(dist[0] != dist[1] && dist[0] != dist[2] && dist[1] != dist[2]);
        }
    }
    assert(dist.len() == 2);
    assert(dist[0] != dist[1]);
    // counts: each distinct label occurs c times, and 2c == n
    assert(count_of(ls, dist[0]) == c && count_of(ls, dist[1]) == c);
    assert(dist.drop_last().len() == 1);
    assert(dist.drop_last()[0] == dist[0]);
    assert(dist.drop_last().drop_last().len() == 0);
    assert(sum_counts(dist.drop_last().drop_last(), ls) == 0);
    assert(sum_counts(dist.drop_last(), ls) == count_of(ls, dist[0]));
    assert(sum_counts(dist, ls) == count_of(ls, dist[0]) + count_of(ls, dist[1]));
    assert(n == c + c);
    // each term is exactly half a bit
    lemma_log2_fix_double(c);
    assert(spec_log2_fix(2 * c, c) == 65536);
    assert(term_of(c, n) == (c * 65536) / (2 * c));
    assert(c * 65536 == (2 * c) * 32768) by (nonlinear_arith);
    lemma_div_multiples_vanish(32768, (2 * c) as int);
    assert(((2 * c) * 32768) / (2 * c) == 32768);
    assert(term_of(c, n) == 32768);
    assert(entropy_sum(dist.drop_last().drop_last(), ls) == 0);
    assert(entropy_sum(dist.drop_last(), ls) == 0 + term_of(count_of(ls, dist[0]), n));
    assert(dist.last() == dist[1]);
    assert(entropy_sum(dist, ls) == entropy_sum(dist.drop_last(), ls) + term_of(
        count_of(ls, dist[1]),
        n,
    ));
}

/// A dataset whose majority label reaches the 99% clearance threshold
/// always builds a single leaf, whatever its attribute values, and the leaf
/// reports the clearance when the majority label is positive, else its
/// complement.
pub proof fn lemma_build_pure_leaf(node: TreeNode, d: Seq<EntryView>)
    requires
        tree_ok(node, d),
        pure_enough(d),
    ensures
        node.node_type matches NodeType::Leaf(p) && leaf_prob_ok(d, p),
        node.children is None,
        node.attribute is None,
{
}

/// Every stage node a build produces keys its children by exactly the
/// distinct values of its attribute observed in the dataset slice that
/// produced the node: no missing and no spurious keys, recursively.
pub proof fn lemma_stage_children_keys(node: TreeNode, d: Seq<EntryView>)
    requires
        tree_ok(node, d),
        node.node_type is Stage,
    ensures
        node.children matches Some(ch) && {
            let a = spec_best_attr(d, (width_of(d) - 1) as nat) as int;
            let dist = distinct_of(values_at(d, a));
            &&& ch@.len() == dist.len()
            &&& forall|i: int| 0 <= i < ch@.len() ==> (#[trigger] ch@[i]).0@ == dist[i]
            &&& forall|i: int|
                0 <= i < ch@.len() ==> tree_ok((#[trigger] ch@[i]).1, group_of(d, a, dist[i]))
        },
{
}

/// The pinned majority label really is a label of maximal multiplicity.
proof fn lemma_best_label_max(dist: Seq<Seq<char>>, ls: Seq<Seq<char>>, k: nat)
    requires
        k < dist.len(),
    ensures
        forall|j: int|
            0 <= j <= k ==> count_of(ls, #[trigger] dist[j]) <= count_of(
                ls,
                best_label_in(dist, ls, k),
            ),
    decreases k,
{
    if k != 0 {
        lemma_best_label_max(dist, ls, (k - 1) as nat);
    }
}

/// Every record's label occurs at most as often as the majority label.
pub proof fn lemma_majority_is_max(d: Seq<EntryView>)
    requires
        d.len() >= 1,
    ensures
        forall|i: int|
            0 <= i < d.len() ==> #[trigger] label_count(d, i) <= count_of(
                labels_of(d),
                spec_majority_label(d),
            ),
{
    let ls = labels_of(d);
    let dist = distinct_of(ls);
    assert(ls.len() == d.len());
    lemma_distinct_nonempty(ls);
    lemma_best_label_max(dist, ls, (dist.len() - 1) as nat);
    assert forall|i: int| 0 <= i < d.len() implies #[trigger] label_count(d, i) <= count_of(
        ls,
        spec_majority_label(d),
    ) by {
        assert(ls.contains(ls[i]));
        lemma_distinct_membership(ls, ls[i]);
        let j = choose|j: int| 0 <= j < dist.len() && dist[j] == ls[i];
        assert(count_of(ls, dist[j]) <= count_of(ls, best_label_in(dist, ls, (dist.len() - 1) as nat)));
    }
}

/// `find_child` depends only on the keys' character sequences.
proof fn lemma_find_child_congruent(
    ch1: Seq<(String, TreeNode)>,
    ch2: Seq<(String, TreeNode)>,
    v: Seq<char>,
)
    requires
        ch1.len() == ch2.len(),
        forall|i: int| 0 <= i < ch1.len() ==> (#[trigger] ch1[i]).0@ == (#[trigger] ch2[i]).0@,
    ensures
        find_child(ch1, v) == find_child(ch2, v),
    decreases ch1.len(),
{
    if ch1.len() != 0 {
        assert(ch1[0].0@ == ch2[0].0@);
        let t1 = ch1.drop_first();
        let t2 = ch2.drop_first();
        assert(forall|i: int|
            0 <= i < t1.len() ==> (#[trigger] t1[i]).0@ == (#[trigger] t2[i]).0@) by {
            assert(forall|i: int|
                0 <= i < t1.len() ==> t1[i] == ch1[i + 1] && #[trigger] t2[i] == ch2[i + 1]);
        }
        lemma_find_child_congruent(t1, t2, v);
    }
}

/// Building is deterministic: two trees grown from the same dataset cannot
/// be told apart by prediction on any record. The stopping criteria decide
/// leaf against stage, the pinned majority label decides each leaf's
/// probability, and the selector and the observed values decide each stage.
pub proof fn lemma_build_deterministic(
    n1: TreeNode,
    n2: TreeNode,
    d: Seq<EntryView>,
    rec: Seq<Seq<char>>,
)
    requires
        tree_ok(n1, d),
        tree_ok(n2, d),
    ensures
        spec_predict(n1, rec) == spec_predict(n2, rec),
    decreases n1,
{
    match n1.node_type {
        NodeType::Leaf(p1) => {
            match n2.node_type {
                NodeType::Leaf(p2) => {
                    assert(p1 == p2);
                },
                NodeType::Stage => {
                    assert(false);
                },
            }
        },
        NodeType::Stage => {
            match n2.node_type {
                NodeType::Leaf(_) => {
                    assert(false);
                },
                NodeType::Stage => {
                    let a = spec_best_attr(d, (width_of(d) - 1) as nat);
                    let ch1 = n1.children.unwrap()@;
                    let ch2 = n2.children.unwrap()@;
                    let dist = distinct_of(values_at(d, a as int));
                    assert(n1.attribute == Some(a as usize) && n2.attribute == Some(a as usize));
                    let au = a as usize;
                    if au as int >= rec.len() {
                    } else {
                        let v = rec[au as int];
                        lemma_find_child_congruent(ch1, ch2, v);
                        let f = find_child(ch1, v);
                        if 0 <= f < ch1.len() {
                            lemma_build_deterministic(
                                ch1[f].1,
                                ch2[f].1,
                                group_of(d, a as int, dist[f]),
                                rec,
                            );
                        }
                    }
                },
            }
        },
    }
}

/// The selector's running best is the maximum gain ratio over the prefix.
pub proof fn lemma_selector_max(d: Seq<EntryView>, a: nat)
    ensures
        forall|i: int| 0 <= i <= a ==> spec_gain(d, i) <= spec_best_gain(d, a),
    decreases a,
{
    if a != 0 {
        lemma_selector_max(d, (a - 1) as nat);
    }
}

/// The selector keeps the first attribute that attained the maximum: every
/// earlier attribute has a strictly smaller gain ratio.
pub proof fn lemma_selector_first(d: Seq<EntryView>, a: nat)
    ensures
        forall|i: int|
            0 <= i < spec_best_attr(d, a) ==> spec_gain(d, i) < spec_best_gain(d, a),
    decreases a,
{
    if a != 0 {
        lemma_selector_first(d, (a - 1) as nat);
        lemma_selector_max(d, (a - 1) as nat);
    }
}

} // verus!
