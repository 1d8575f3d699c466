//! The data model: labeled categorical records, and the executable helpers
//! that count, collect and filter attribute values and class labels.
//!
//! All contracts speak about `deep_view()` images of the data, so a record
//! and its clone are indistinguishable to the specifications.

use vstd::prelude::*;

verus! {

use crate::counting::{count_of, distinct_of, lemma_count_le_len, lemma_count_push};
use vstd::seq_lib::*;
use vstd::string::StringExecFns;

/// One labeled record: its attribute values, and its class label.
pub type DataEntry = (Vec<String>, String);

/// A dataset: an ordered sequence of labeled records.
pub type Data = Vec<DataEntry>;

/// The mathematical image of one record.
pub type EntryView = (Seq<Seq<char>>, Seq<char>);

/// The class labels of a dataset.
pub open spec fn labels_of(d: Seq<EntryView>) -> Seq<Seq<char>> {
    d.map_values(|r: EntryView| r.1)
}

/// The values of attribute `attr` across a dataset.
pub open spec fn values_at(d: Seq<EntryView>, attr: int) -> Seq<Seq<char>> {
    d.map_values(|r: EntryView| r.0[attr])
}

/// The records whose value at attribute `attr` equals `v`, in order.
pub open spec fn group_of(d: Seq<EntryView>, attr: int, v: Seq<char>) -> Seq<EntryView> {
    d.filter(|r: EntryView| r.0[attr] == v)
}

/// Every record has exactly `w` attributes.
pub open spec fn consistent_width(d: Seq<EntryView>, w: nat) -> bool {
    forall|i: int| 0 <= i < d.len() ==> (#[trigger] d[i]).0.len() == w
}

/// The fixed label whose probability every leaf reports.
pub open spec fn positive_label() -> Seq<char> {
    "e"@
}

/// Whether `l` is the positive class label.
pub fn is_positive_label(l: &String) -> (r: bool)
    ensures
        r == (l@ == positive_label()),
{
    let pos: String = String::from_str("e");
    *l == pos
}

/// The number of records of `data` labeled `label`.
pub fn count_label(data: &Data, label: &String) -> (r: u64)
    ensures
        r == count_of(labels_of(data.deep_view()), label@),
        r <= data.deep_view().len(),
{
    let ghost dv = data.deep_view();
    let mut cnt: u64 = 0;
    let mut t: usize = 0;
    while t < data.len()
        invariant
            0 <= t <= dv.len(),
            dv.len() == data.len(),
            dv == data.deep_view(),
            cnt == count_of(labels_of(dv.take(t as int)), label@),
            cnt <= t,
        decreases data.len() - t,
    {
        proof {
            let lv = labels_of(dv.take(t as int));
            assert(labels_of(dv.take(t + 1)) =~= lv.push(dv[t as int].1));
            lemma_count_push(lv, label@, dv[t as int].1);
            lemma_count_le_len(lv, label@);
            assert(dv[t as int].1 == data@[t as int].1@);
        }
        if data[t].1 == *label {
            cnt = cnt + 1;
        }
        t = t + 1;
    }
    proof {
        assert(dv.take(dv.len() as int) =~= dv);
    }
    cnt
}

/// The number of records of `data` whose value at `attr` equals `value`.
pub fn count_value(data: &Data, attr: usize, value: &String) -> (r: u64)
    requires
        forall|i: int| 0 <= i < data.deep_view().len() ==> attr
            < (#[trigger] data.deep_view()[i]).0.len(),
    ensures
        r == count_of(values_at(data.deep_view(), attr as int), value@),
        r <= data.deep_view().len(),
{
    let ghost dv = data.deep_view();
    let mut cnt: u64 = 0;
    let mut t: usize = 0;
    while t < data.len()
        invariant
            0 <= t <= dv.len(),
            dv.len() == data.len(),
            dv == data.deep_view(),
            forall|i: int| 0 <= i < dv.len() ==> attr < (#[trigger] dv[i]).0.len(),
            cnt == count_of(values_at(dv.take(t as int), attr as int), value@),
            cnt <= t,
        decreases data.len() - t,
    {
        proof {
            let lv = values_at(dv.take(t as int), attr as int);
            assert(values_at(dv.take(t + 1), attr as int) =~= lv.push(
                dv[t as int].0[attr as int],
            ));
            lemma_count_push(lv, value@, dv[t as int].0[attr as int]);
            lemma_count_le_len(lv, value@);
            assert(dv[t as int].0[attr as int] == data@[t as int].0@[attr as int]@);
        }
        if data[t].0[attr] == *value {
            cnt = cnt + 1;
        }
        t = t + 1;
    }
    proof {
        assert(dv.take(dv.len() as int) =~= dv);
    }
    cnt
}

/// The distinct class labels of `data`, in order of first occurrence.
pub fn distinct_labels(data: &Data) -> (keys: Vec<String>)
    ensures
        keys.deep_view() == distinct_of(labels_of(data.deep_view())),
{
    let ghost dv = data.deep_view();
    let mut keys: Vec<String> = Vec::new();
    let mut t: usize = 0;
    proof {
        assert(keys.deep_view() =~= distinct_of(labels_of(dv.take(0))));
    }
    while t < data.len()
        invariant
            0 <= t <= dv.len(),
            dv.len() == data.len(),
            dv == data.deep_view(),
            keys.deep_view() == distinct_of(labels_of(dv.take(t as int))),
        decreases data.len() - t,
    {
        let ghost lv = labels_of(dv.take(t as int));
        let ghost x = dv[t as int].1;
        proof {
            assert(labels_of(dv.take(t + 1)) =~= lv.push(x));
            assert(lv.push(x).drop_last() =~= lv);
            assert(dv[t as int].1 == data@[t as int].1@);
        }
        let mut j: usize = 0;
        let mut found: bool = false;
        while j < keys.len()
            invariant
                0 <= j <= keys.len(),
                dv == data.deep_view(),
                t < dv.len(),
                dv.len() == data.len(),
                found <==> exists|j2: int| 0 <= j2 < j && keys.deep_view()[j2] == x,
                x == dv[t as int].1,
            decreases keys.len() - j,
        {
            proof {
                assert(keys.deep_view()[j as int] == keys@[j as int]@);
            }
            if keys[j] == data[t].1 {
                found = true;
            }
            j = j + 1;
        }
        proof {
            let d = distinct_of(lv);
            assert(distinct_of(lv.push(x)) == if d.contains(x) {
                d
            } else {
                d.push(x)
            });
            if found {
                let j2 = choose|j2: int|
                    0 <= j2 < keys.deep_view().len() && keys.deep_view()[j2] == x;
                assert(d[j2] == x);
                assert(d.contains(x));
            } else {
                if d.contains(x) {
                    let j2 = choose|j2: int| 0 <= j2 < d.len() && d[j2] == x;
                    assert(keys.deep_view()[j2] == x);
                    assert(false);
                }
            }
        }
        if !found {
            keys.push(data[t].1.clone());
            proof {
                assert(keys.deep_view() =~= distinct_of(lv).push(x));
            }
        }
        t = t + 1;
    }
    proof {
        assert(dv.take(dv.len() as int) =~= dv);
    }
    keys
}

/// The distinct values of attribute `attr` in `data`, in order of first occurrence.
pub fn distinct_values(data: &Data, attr: usize) -> (keys: Vec<String>)
    requires
        forall|i: int| 0 <= i < data.deep_view().len() ==> attr
            < (#[trigger] data.deep_view()[i]).0.len(),
    ensures
        keys.deep_view() == distinct_of(values_at(data.deep_view(), attr as int)),
{
    let ghost dv = data.deep_view();
    let mut keys: Vec<String> = Vec::new();
    let mut t: usize = 0;
    proof {
        assert(keys.deep_view() =~= distinct_of(values_at(dv.take(0), attr as int)));
    }
    while t < data.len()
        invariant
            0 <= t <= dv.len(),
            dv.len() == data.len(),
            dv == data.deep_view(),
            forall|i: int| 0 <= i < dv.len() ==> attr < (#[trigger] dv[i]).0.len(),
            keys.deep_view() == distinct_of(values_at(dv.take(t as int), attr as int)),
        decreases data.len() - t,
    {
        let ghost lv = values_at(dv.take(t as int), attr as int);
        let ghost x = dv[t as int].0[attr as int];
        proof {
            assert(values_at(dv.take(t + 1), attr as int) =~= lv.push(x));
            assert(dv[t as int].0[attr as int] == data@[t as int].0@[attr as int]@);
        }
        let mut j: usize = 0;
        let mut found: bool = false;
        while j < keys.len()
            invariant
                0 <= j <= keys.len(),
                dv == data.deep_view(),
                t < dv.len(),
                dv.len() == data.len(),
                attr < dv[t as int].0.len(),
                found <==> exists|j2: int| 0 <= j2 < j && keys.deep_view()[j2] == x,
                x == dv[t as int].0[attr as int],
            decreases keys.len() - j,
        {
            proof {
                assert(keys.deep_view()[j as int] == keys@[j as int]@);
            }
            if keys[j] == data[t].0[attr] {
                found = true;
            }
            j = j + 1;
        }
        proof {
            let d = distinct_of(lv);
            assert(lv.push(x).drop_last() =~= lv);
            assert(distinct_of(lv.push(x)) == if d.contains(x) {
                d
            } else {
                d.push(x)
            });
            if found {
                let j2 = choose|j2: int|
                    0 <= j2 < keys.deep_view().len() && keys.deep_view()[j2] == x;
                assert(d[j2] == x);
                assert(d.contains(x));
            } else {
                if d.contains(x) {
                    let j2 = choose|j2: int| 0 <= j2 < d.len() && d[j2] == x;
                    assert(keys.deep_view()[j2] == x);
                    assert(false);
                }
            }
        }
        if !found {
            keys.push(data[t].0[attr].clone());
            proof {
                assert(keys.deep_view() =~= distinct_of(lv).push(x));
            }
        }
        t = t + 1;
    }
    proof {
        assert(dv.take(dv.len() as int) =~= dv);
    }
    keys
}

/// The records of `data` whose value at `attr` equals `value`, in order.
pub fn filter_by_value(data: &Data, attr: usize, value: &String) -> (group: Data)
    requires
        forall|i: int| 0 <= i < data.deep_view().len() ==> attr
            < (#[trigger] data.deep_view()[i]).0.len(),
    ensures
        group.deep_view() == group_of(data.deep_view(), attr as int, value@),
{
    let ghost dv = data.deep_view();
    let ghost pred = |r: EntryView| r.0[attr as int] == value@;
    let mut group: Data = Vec::new();
    let mut t: usize = 0;
    proof {
        assert(group.deep_view() =~= dv.take(0).filter(pred));
    }
    while t < data.len()
        invariant
            0 <= t <= dv.len(),
            dv.len() == data.len(),
            dv == data.deep_view(),
            pred == (|r: EntryView| r.0[attr as int] == value@),
            forall|i: int| 0 <= i < dv.len() ==> attr < (#[trigger] dv[i]).0.len(),
            group.deep_view() == dv.take(t as int).filter(pred),
        decreases data.len() - t,
    {
        proof {
            assert(dv.take(t + 1).drop_last() =~= dv.take(t as int));
            assert(dv.take(t + 1) =~= dv.take(t as int).push(dv[t as int]));
            dv.take(t as int).lemma_filter_push(dv[t as int], pred);
            assert(dv[t as int].0[attr as int] == data@[t as int].0@[attr as int]@);
        }
        if data[t].0[attr] == *value {
            let entry: DataEntry = (data[t].0.clone(), data[t].1.clone());
            proof {
                assert(entry.deep_view() == dv[t as int]);
            }
            group.push(entry);
            proof {
                assert(group.deep_view() =~= dv.take(t + 1).filter(pred));
            }
        }
        t = t + 1;
    }
    proof {
        assert(dv.take(dv.len() as int) =~= dv);
    }
    group
}

} // verus!
