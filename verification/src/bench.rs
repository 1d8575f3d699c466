//! Evaluation helpers around the classifier: partitioning a dataset into
//! training and evaluation subsets from a per-record choice, and counting a
//! classifier's confusion matrix over an evaluation dataset at a threshold.
//!
//! Drawing the per-record choices and turning counts into rates are the
//! callers' concern; the logic here is exact.

use vstd::prelude::*;

verus! {

use crate::classifier::{DecisionTreeeClassifier, TreeNode, wf_node, spec_predict};
use crate::data::{Data, DataEntry, EntryView, positive_label};
use crate::{Prob, PredictError};
use vstd::string::StringExecFns;

/// The records of `d` whose flag equals `keep`, in order.
pub open spec fn select_by(d: Seq<EntryView>, flags: Seq<bool>, keep: bool) -> Seq<EntryView>
    recommends
        d.len() == flags.len(),
    decreases d.len(),
{
    if d.len() == 0 {
        Seq::empty()
    } else {
        let rest = select_by(d.drop_last(), flags.drop_last(), keep);
        if flags.last() == keep {
            rest.push(d.last())
        } else {
            rest
        }
    }
}

/// Partitions `data` into a training and an evaluation subset: record `i`
/// goes to the training subset exactly when `flags[i]` is true. The caller
/// chooses the flags, typically one random draw per record.
pub fn split_data(flags: &Vec<bool>, data: &Data) -> (r: (Data, Data))
    requires
        flags@.len() == data.deep_view().len(),
    ensures
        r.0.deep_view() == select_by(data.deep_view(), flags@, true),
        r.1.deep_view() == select_by(data.deep_view(), flags@, false),
{
    let ghost dv = data.deep_view();
    let mut train_data: Data = Vec::new();
    let mut test_data: Data = Vec::new();
    let mut t: usize = 0;
    proof {
        assert(train_data.deep_view() =~= select_by(dv.take(0), flags@.take(0), true));
        assert(test_data.deep_view() =~= select_by(dv.take(0), flags@.take(0), false));
    }
    while t < data.len()
        invariant
            0 <= t <= dv.len(),
            dv == data.deep_view(),
            dv.len() == data.len(),
            flags@.len() == dv.len(),
            train_data.deep_view() == select_by(dv.take(t as int), flags@.take(t as int), true),
            test_data.deep_view() == select_by(dv.take(t as int), flags@.take(t as int), false),
        decreases data.len() - t,
    {
        proof {
            assert(dv.take(t + 1).drop_last() =~= dv.take(t as int));
            assert(flags@.take(t + 1).drop_last() =~= flags@.take(t as int));
            assert(dv.take(t + 1).last() == dv[t as int]);
            assert(flags@.take(t + 1).last() == flags@[t as int]);
        }
        let entry: DataEntry = (data[t].0.clone(), data[t].1.clone());
        proof {
            assert(entry.deep_view() == dv[t as int]);
        }
        if flags[t] {
            train_data.push(entry);
            proof {
                assert(train_data.deep_view() =~= select_by(
                    dv.take(t + 1),
                    flags@.take(t + 1),
                    true,
                ));
                assert(test_data.deep_view() =~= select_by(
                    dv.take(t + 1),
                    flags@.take(t + 1),
                    false,
                ));
            }
        } else {
            test_data.push(entry);
            proof {
                assert(train_data.deep_view() =~= select_by(
                    dv.take(t + 1),
                    flags@.take(t + 1),
                    true,
                ));
                assert(test_data.deep_view() =~= select_by(
                    dv.take(t + 1),
                    flags@.take(t + 1),
                    false,
                ));
            }
        }
        t = t + 1;
    }
    proof {
        assert(dv.take(dv.len() as int) =~= dv);
        assert(flags@.take(flags@.len() as int) =~= flags@);
    }
    (train_data, test_data)
}

/// The label that counts as a true negative in the benchmark.
pub open spec fn negative_label() -> Seq<char> {
    "p"@
}

/// The predicted probability reaches the threshold: `p >= th` as rationals.
pub open spec fn meets_threshold(p: Prob, th: Prob) -> bool {
    p.num * th.den >= th.num * p.den
}

/// Confusion-matrix counts over `d`, folded in dataset order:
/// (true positives, true negatives, false positives, false negatives).
/// The first failing prediction fails the whole benchmark.
pub open spec fn spec_bench(root: TreeNode, d: Seq<EntryView>, th: Prob) -> Result<
    (nat, nat, nat, nat),
    PredictError,
>
    decreases d.len(),
{
    if d.len() == 0 {
        Ok((0, 0, 0, 0))
    } else {
        match spec_bench(root, d.drop_last(), th) {
            Err(e) => Err(e),
            Ok(c) => match spec_predict(root, d.last().0) {
                Err(e) => Err(e),
                Ok(p) => {
                    let positive = d.last().1 == positive_label();
                    let negative = d.last().1 == negative_label();
                    if meets_threshold(p, th) {
                        if positive {
                            Ok(((c.0 + 1) as nat, c.1, c.2, c.3))
                        } else {
                            Ok((c.0, c.1, (c.2 + 1) as nat, c.3))
                        }
                    } else {
                        if negative {
                            Ok((c.0, (c.1 + 1) as nat, c.2, c.3))
                        } else {
                            Ok((c.0, c.1, c.2, (c.3 + 1) as nat))
                        }
                    }
                },
            },
        }
    }
}

/// A failed benchmark prefix fails every extension the same way.
proof fn lemma_bench_err_extends(root: TreeNode, d: Seq<EntryView>, th: Prob, t: int, e: PredictError)
    requires
        0 <= t <= d.len(),
        spec_bench(root, d.take(t), th) == Err::<(nat, nat, nat, nat), PredictError>(e),
    ensures
        spec_bench(root, d, th) == Err::<(nat, nat, nat, nat), PredictError>(e),
    decreases d.len() - t,
{
    if t == d.len() {
        assert(d.take(t) =~= d);
    } else {
        assert(d.take(t + 1).drop_last() =~= d.take(t));
        lemma_bench_err_extends(root, d, th, t + 1, e);
    }
}

/// Counts the classifier's confusion matrix over `test_data` at `threshold`:
/// (true positives, true negatives, false positives, false negatives).
/// Stops at the first record whose prediction fails and reports that failure.
pub fn bench_classifier(
    classifier: &DecisionTreeeClassifier,
    test_data: &Data,
    threshold: Prob,
) -> (r: Result<(u64, u64, u64, u64), PredictError>)
    requires
        wf_node(classifier.root),
    ensures
        ({
            let b = spec_bench(classifier.root, test_data.deep_view(), threshold);
            match r {
                Ok(c) => b == Ok::<(nat, nat, nat, nat), PredictError>(
                    ((c.0 as nat), (c.1 as nat), (c.2 as nat), (c.3 as nat)),
                ),
                Err(e) => b == Err::<(nat, nat, nat, nat), PredictError>(e),
            }
        }),
{
    let ghost dv = test_data.deep_view();
    let ghost root = classifier.root;
    let mut true_positive: u64 = 0;
    let mut true_negative: u64 = 0;
    let mut false_positive: u64 = 0;
    let mut false_negative: u64 = 0;
    let mut t: usize = 0;
    let pos: String = String::from_str("e");
    let neg: String = String::from_str("p");
    while t < test_data.len()
        invariant
            0 <= t <= dv.len(),
            dv == test_data.deep_view(),
            dv.len() == test_data.len(),
            root == classifier.root,
            wf_node(classifier.root),
            pos@ == positive_label(),
            neg@ == negative_label(),
            true_positive <= t && true_negative <= t && false_positive <= t && false_negative
                <= t,
            spec_bench(root, dv.take(t as int), threshold) == Ok::<
                (nat, nat, nat, nat),
                PredictError,
            >(
                (
                    (true_positive as nat),
                    (true_negative as nat),
                    (false_positive as nat),
                    (false_negative as nat),
                ),
            ),
        decreases test_data.len() - t,
    {
        proof {
            assert(dv.take(t + 1).drop_last() =~= dv.take(t as int));
            assert(dv.take(t + 1).last() == dv[t as int]);
            assert(dv[t as int].0 == test_data@[t as int].0.deep_view());
            assert(dv[t as int].1 == test_data@[t as int].1@);
        }
        let predicted = classifier.predict(&test_data[t].0);
        match predicted {
            Err(e) => {
                proof {
                    lemma_bench_err_extends(root, dv, threshold, t + 1, e);
                }
                return Err(e);
            },
            Ok(p) => {
                proof {
                    assert((p.num as nat) * (threshold.den as nat)
                        < 0x1_0000_0000_0000_0000_0000_0000_0000_0000) by (nonlinear_arith)
                        requires
                            (p.num as nat) < 0x1_0000_0000_0000_0000,
                            (threshold.den as nat) < 0x1_0000_0000_0000_0000,
                    ;
                    assert((threshold.num as nat) * (p.den as nat)
                        < 0x1_0000_0000_0000_0000_0000_0000_0000_0000) by (nonlinear_arith)
                        requires
                            (threshold.num as nat) < 0x1_0000_0000_0000_0000,
                            (p.den as nat) < 0x1_0000_0000_0000_0000,
                    ;
                }
                let lhs: u128 = (p.num as u128) * (threshold.den as u128);
                let rhs: u128 = (threshold.num as u128) * (p.den as u128);
                let meets = lhs >= rhs;
                proof {
                    assert(meets == meets_threshold(p, threshold));
                }
                if meets {
                    if test_data[t].1 == pos {
                        true_positive = true_positive + 1;
                    } else {
                        false_positive = false_positive + 1;
                    }
                } else {
                    if test_data[t].1 == neg {
                        true_negative = true_negative + 1;
                    } else {
                        false_negative = false_negative + 1;
                    }
                }
            },
        }
        t = t + 1;
    }
    proof {
        assert(dv.take(dv.len() as int) =~= dv);
    }
    Ok((true_positive, true_negative, false_positive, false_negative))
}

} // verus!
