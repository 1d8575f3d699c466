//! Counting occurrences of values in sequences: multiplicities, the sequence
//! of distinct values in first-occurrence order, and how the multiplicities
//! of the distinct values partition a sequence's length.

use vstd::prelude::*;

verus! {

use vstd::seq_lib::*;

/// The number of occurrences of `x` in `s`.
pub open spec fn count_of(s: Seq<Seq<char>>, x: Seq<char>) -> nat {
    s.filter(|y: Seq<char>| y == x).len()
}

/// The distinct elements of `s`, in order of first occurrence.
pub open spec fn distinct_of(s: Seq<Seq<char>>) -> Seq<Seq<char>>
    decreases s.len(),
{
    if s.len() == 0 {
        Seq::empty()
    } else {
        let d = distinct_of(s.drop_last());
        if d.contains(s.last()) {
            d
        } else {
            d.push(s.last())
        }
    }
}

/// The sum of the multiplicities in `ls` of the elements of `dist`.
pub open spec fn sum_counts(dist: Seq<Seq<char>>, ls: Seq<Seq<char>>) -> nat
    decreases dist.len(),
{
    if dist.len() == 0 {
        0
    } else {
        sum_counts(dist.drop_last(), ls) + count_of(ls, dist.last())
    }
}

pub proof fn lemma_count_push(s: Seq<Seq<char>>, x: Seq<char>, y: Seq<char>)
    ensures
        x == y ==> count_of(s.push(y), x) == count_of(s, x) + 1,
        x != y ==> count_of(s.push(y), x) == count_of(s, x),
{
    broadcast use Seq::lemma_filter_push;
}

pub proof fn lemma_count_le_len(s: Seq<Seq<char>>, x: Seq<char>)
    ensures
        count_of(s, x) <= s.len(),
{
    s.lemma_filter_len(|z: Seq<char>| z == x);
}

pub proof fn lemma_count_pos(s: Seq<Seq<char>>, x: Seq<char>)
    ensures
        s.contains(x) <==> count_of(s, x) >= 1,
    decreases s.len(),
{
    if s.len() == 0 {
        assert(s.filter(|z: Seq<char>| z == x) =~= Seq::empty());
    } else {
        let dl = s.drop_last();
        assert(s =~= dl.push(s.last()));
        lemma_count_pos(dl, x);
        lemma_count_push(dl, x, s.last());
        assert(s.contains(x) <==> (dl.contains(x) || s.last() == x)) by {
            if s.contains(x) {
                let i = choose|i: int| 0 <= i < s.len() && s[i] == x;
                if i < s.len() - 1 {
                    assert(dl[i] == x);
                }
            }
            if dl.contains(x) {
                let i = choose|i: int| 0 <= i < dl.len() && dl[i] == x;
                assert(s[i] == x);
            }
            if s.last() == x {
                assert(s[s.len() - 1] == x);
            }
        }
    }
}

pub proof fn lemma_distinct_membership(s: Seq<Seq<char>>, x: Seq<char>)
    ensures
        distinct_of(s).contains(x) <==> s.contains(x),
    decreases s.len(),
{
    if s.len() == 0 {
    } else {
        let dl = s.drop_last();
        lemma_distinct_membership(dl, x);
        let d = distinct_of(dl);
        assert(s.contains(x) <==> (dl.contains(x) || s.last() == x)) by {
            if s.contains(x) {
                let i = choose|i: int| 0 <= i < s.len() && s[i] == x;
                if i < s.len() - 1 {
                    assert(dl[i] == x);
                }
            }
            if dl.contains(x) {
                let i = choose|i: int| 0 <= i < dl.len() && dl[i] == x;
                assert(s[i] == x);
            }
            if s.last() == x {
                assert(s[s.len() - 1] == x);
            }
        }
        if !d.contains(s.last()) {
            assert(distinct_of(s) == d.push(s.last()));
            assert(d.push(s.last()).contains(x) <==> (d.contains(x) || s.last() == x)) by {
                if d.contains(x) {
                    let i = choose|i: int| 0 <= i < d.len() && d[i] == x;
                    assert(d.push(s.last())[i] == x);
                }
                assert(d.push(s.last())[d.len() as int] == s.last());
            }
        }
    }
}

pub proof fn lemma_distinct_no_dup(s: Seq<Seq<char>>)
    ensures
        distinct_of(s).no_duplicates(),
    decreases s.len(),
{
    if s.len() == 0 {
    } else {
        let dl = s.drop_last();
        lemma_distinct_no_dup(dl);
        let d = distinct_of(dl);
        if !d.contains(s.last()) {
            let d2 = d.push(s.last());
            assert(d2.no_duplicates()) by {
                assert forall|i: int, j: int| 0 <= i < j < d2.len() implies d2[i] != d2[j] by {
                    if j < d.len() {
                        assert(d[i] != d[j]);
                    } else {
                        assert(d2[j] == s.last());
                        assert(d2[i] == d[i]);
                        assert(d.contains(d[i]));
                    }
                }
            }
        }
    }
}

pub proof fn lemma_count_nodup(dist: Seq<Seq<char>>, x: Seq<char>)
    requires
        dist.no_duplicates(),
        dist.contains(x),
    ensures
        count_of(dist, x) == 1,
    decreases dist.len(),
{
    let dl = dist.drop_last();
    assert(dist =~= dl.push(dist.last()));
    lemma_count_push(dl, x, dist.last());
    assert(dl.no_duplicates());
    if dist.last() == x {
        assert(!dl.contains(x)) by {
            if dl.contains(x) {
                let i = choose|i: int| 0 <= i < dl.len() && dl[i] == x;
                assert(dist[i] == dist[dist.len() - 1]);
            }
        }
        lemma_count_pos(dl, x);
    } else {
        assert(dl.contains(x)) by {
            let i = choose|i: int| 0 <= i < dist.len() && dist[i] == x;
            assert(i < dist.len() - 1);
            assert(dl[i] == x);
        }
        lemma_count_nodup(dl, x);
    }
}

pub proof fn lemma_sum_counts_push_ls(dist: Seq<Seq<char>>, ls: Seq<Seq<char>>, y: Seq<char>)
    ensures
        sum_counts(dist, ls.push(y)) == sum_counts(dist, ls) + count_of(dist, y),
    decreases dist.len(),
{
    if dist.len() == 0 {
        assert(dist.filter(|z: Seq<char>| z == y) =~= Seq::empty());
    } else {
        let dl = dist.drop_last();
        assert(dist =~= dl.push(dist.last()));
        lemma_sum_counts_push_ls(dl, ls, y);
        lemma_count_push(ls, dist.last(), y);
        lemma_count_push(dl, y, dist.last());
    }
}

/// The multiplicities of the distinct values of a sequence sum to its length.
pub proof fn lemma_partition(ls: Seq<Seq<char>>)
    ensures
        sum_counts(distinct_of(ls), ls) == ls.len(),
    decreases ls.len(),
{
    if ls.len() == 0 {
    } else {
        let dl = ls.drop_last();
        let x = ls.last();
        assert(ls =~= dl.push(x));
        lemma_partition(dl);
        let d = distinct_of(dl);
        lemma_distinct_no_dup(dl);
        lemma_distinct_membership(dl, x);
        lemma_count_pos(dl, x);
        if d.contains(x) {
            assert(distinct_of(ls) == d);
            lemma_sum_counts_push_ls(d, dl, x);
            lemma_count_nodup(d, x);
        } else {
            assert(distinct_of(ls) == d.push(x));
            lemma_sum_counts_push_ls(d.push(x), dl, x);
            assert(sum_counts(d.push(x), dl) == sum_counts(d, dl) + count_of(dl, x)) by {
                assert(d.push(x).drop_last() =~= d);
                assert(d.push(x).last() == x);
            }
            assert(count_of(dl, x) == 0);
            assert(count_of(d.push(x), x) >= 1) by {
                lemma_count_pos(d.push(x), x);
                assert(d.push(x)[d.len() as int] == x);
            }
            assert(count_of(d.push(x), x) == 1) by {
                lemma_distinct_no_dup(ls);
                lemma_count_nodup(d.push(x), x);
            }
        }
    }
}

pub proof fn lemma_sum_counts_take(dist: Seq<Seq<char>>, ls: Seq<Seq<char>>, i: int)
    requires
        0 <= i <= dist.len(),
    ensures
        sum_counts(dist.take(i), ls) <= sum_counts(dist, ls),
    decreases dist.len() - i,
{
    if i == dist.len() {
        assert(dist.take(i) =~= dist);
    } else {
        lemma_sum_counts_take(dist, ls, i + 1);
        assert(dist.take(i + 1).drop_last() =~= dist.take(i));
        assert(sum_counts(dist.take(i + 1), ls) == sum_counts(dist.take(i), ls) + count_of(
            ls,
            dist.take(i + 1).last(),
        ));
    }
}

pub proof fn lemma_sum_counts_ge_len(dist: Seq<Seq<char>>, ls: Seq<Seq<char>>)
    requires
        forall|j: int| 0 <= j < dist.len() ==> count_of(ls, #[trigger] dist[j]) >= 1,
    ensures
        sum_counts(dist, ls) >= dist.len(),
    decreases dist.len(),
{
    if dist.len() == 0 {
    } else {
        let dl = dist.drop_last();
        assert(forall|j: int| 0 <= j < dl.len() ==> count_of(ls, #[trigger] dl[j]) >= 1) by {
            assert(forall|j: int| 0 <= j < dl.len() ==> dl[j] == dist[j]);
        }
        lemma_sum_counts_ge_len(dl, ls);
        assert(count_of(ls, dist.last()) >= 1);
    }
}

/// In a partition with at least two parts, every part is smaller than the whole.
pub proof fn lemma_sum_counts_elem(dist: Seq<Seq<char>>, ls: Seq<Seq<char>>, i: int)
    requires
        0 <= i < dist.len(),
        forall|j: int| 0 <= j < dist.len() ==> count_of(ls, #[trigger] dist[j]) >= 1,
    ensures
        count_of(ls, dist[i]) + dist.len() <= sum_counts(dist, ls) + 1,
    decreases dist.len(),
{
    let dl = dist.drop_last();
    assert(forall|j: int| 0 <= j < dl.len() ==> count_of(ls, #[trigger] dl[j]) >= 1) by {
        assert(forall|j: int| 0 <= j < dl.len() ==> dl[j] == dist[j]);
    }
    if i == dist.len() - 1 {
        lemma_sum_counts_ge_len(dl, ls);
    } else {
        lemma_sum_counts_elem(dl, ls, i);
        assert(dl[i] == dist[i]);
        assert(count_of(ls, dist.last()) >= 1);
    }
}

} // verus!
