//! The order of scores from the highest down.
use vstd::prelude::*;

verus! {

/// Whether place `a` comes before place `b`: the higher key first, and of equal
/// keys the earlier place.
pub open spec fn ranks(keys: Seq<i32>, a: int, b: int) -> bool {
    keys[a] > keys[b] || (keys[a] == keys[b] && a <= b)
}

/// The order of [`ranks`].
pub open spec fn by_rank(keys: Seq<i32>) -> spec_fn(int, int) -> bool {
    |a: int, b: int| ranks(keys, a, b)
}

/// The places from `start` to before `end`.
pub open spec fn places(start: int, end: int) -> Seq<int> {
    Seq::new((end - start) as nat, |i: int| start + i)
}

/// The places of `keys` from the highest key down.
pub open spec fn ranked(keys: Seq<i32>) -> Seq<int> {
    places(0, keys.len() as int).sort_by(by_rank(keys))
}

pub open spec fn numbers(list: Seq<usize>) -> Seq<int> {
    list.map_values(|i: usize| i as int)
}

proof fn lemma_by_rank(keys: Seq<i32>)
    ensures
        vstd::relations::total_ordering(by_rank(keys)),
{
}

/// Every place comes in the order once, and each before those that rank after it.
pub proof fn lemma_ranked(keys: Seq<i32>)
    ensures
        ranked(keys).len() == keys.len(),
        ranked(keys).no_duplicates(),
        forall|i: int| #[trigger] ranked(keys).contains(i) <==> 0 <= i < keys.len(),
        forall|i: int, j: int|
            0 <= i < j < keys.len() ==> #[trigger] ranks(keys, ranked(keys)[i], ranked(keys)[j]),
{
    broadcast use vstd::multiset::group_multiset_axioms;
    broadcast use vstd::seq_lib::group_to_multiset_ensures;

    let all = places(0, keys.len() as int);
    let order = ranked(keys);
    lemma_by_rank(keys);
    all.lemma_sort_by_ensures(by_rank(keys));
    assert(order.len() == order.to_multiset().len());
    assert(all.len() == all.to_multiset().len());
    assert(all.no_duplicates());
    all.lemma_multiset_has_no_duplicates();
    order.lemma_multiset_has_no_duplicates_conv();
    assert forall|i: int| #[trigger] order.contains(i) <==> 0 <= i < keys.len() by {
        assert(order.contains(i) <==> order.to_multiset().count(i) > 0);
        assert(all.contains(i) <==> all.to_multiset().count(i) > 0);
        if 0 <= i < keys.len() {
            assert(all[i] == i);
        }
    }
    assert forall|i: int, j: int| 0 <= i < j < keys.len() implies #[trigger] ranks(
        keys,
        order[i],
        order[j],
    ) by {
        assert(by_rank(keys)(order[i], order[j]));
    }
}

/// Whether a list of places is in order.
spec fn in_order(keys: Seq<i32>, list: Seq<int>) -> bool {
    forall|i: int, j: int| 0 <= i < j < list.len() ==> ranks(keys, #[trigger] list[i], #[trigger] list[j])
}

fn merge(keys: &[i32], a: &Vec<usize>, b: &Vec<usize>) -> (r: Vec<usize>)
    requires
        in_order(keys@, numbers(a@)),
        in_order(keys@, numbers(b@)),
        forall|i: int| 0 <= i < a@.len() ==> #[trigger] a@[i] < keys@.len(),
        forall|i: int| 0 <= i < b@.len() ==> #[trigger] b@[i] < keys@.len(),
    ensures
        in_order(keys@, numbers(r@)),
        numbers(r@).to_multiset() == numbers(a@).to_multiset().add(numbers(b@).to_multiset()),
        forall|i: int| 0 <= i < r@.len() ==> #[trigger] r@[i] < keys@.len(),
{
    broadcast use vstd::multiset::group_multiset_axioms;
    broadcast use vstd::seq_lib::group_to_multiset_ensures;

    let ghost x = numbers(a@);
    let ghost y = numbers(b@);
    let mut out: Vec<usize> = Vec::new();
    let mut i: usize = 0;
    let mut j: usize = 0;
    proof {
        assert(numbers(out@) =~= Seq::<int>::empty());
        assert(x.take(0) =~= Seq::<int>::empty());
        assert(y.take(0) =~= Seq::<int>::empty());
    }
    while i < a.len() || j < b.len()
        invariant
            x == numbers(a@),
            y == numbers(b@),
            i <= a.len(),
            j <= b.len(),
            in_order(keys@, x),
            in_order(keys@, y),
            forall|k: int| 0 <= k < a@.len() ==> #[trigger] a@[k] < keys@.len(),
            forall|k: int| 0 <= k < b@.len() ==> #[trigger] b@[k] < keys@.len(),
            forall|k: int| 0 <= k < out@.len() ==> #[trigger] out@[k] < keys@.len(),
            in_order(keys@, numbers(out@)),
            forall|k: int, m: int|
                0 <= k < out@.len() && i <= m < x.len() ==> ranks(
                    keys@,
                    #[trigger] numbers(out@)[k],
                    #[trigger] x[m],
                ),
            forall|k: int, m: int|
                0 <= k < out@.len() && j <= m < y.len() ==> ranks(
                    keys@,
                    #[trigger] numbers(out@)[k],
                    #[trigger] y[m],
                ),
            numbers(out@).to_multiset() == x.take(i as int).to_multiset().add(
                y.take(j as int).to_multiset(),
            ),
        decreases a.len() - i + b.len() - j,
    {
        let left = if i == a.len() {
            false
        } else if j == b.len() {
            true
        } else {
            let p = keys[a[i]];
            let q = keys[b[j]];
            p > q || (p == q && a[i] <= b[j])
        };
        let ghost before = out@;
        if left {
            proof {
                assert(x[i as int] == a@[i as int]);
                assert(j < y.len() ==> ranks(keys@, x[i as int], y[j as int]));
                assert(x.take(i + 1) =~= x.take(i as int).push(x[i as int]));
            }
            out.push(a[i]);
            proof {
                assert(numbers(out@) =~= numbers(before).push(x[i as int]));
            }
            i += 1;
        } else {
            proof {
                assert(y[j as int] == b@[j as int]);
                assert(i < x.len() ==> x[i as int] == a@[i as int]);
                assert(i < x.len() ==> ranks(keys@, y[j as int], x[i as int]));
                assert(y.take(j + 1) =~= y.take(j as int).push(y[j as int]));
            }
            out.push(b[j]);
            proof {
                assert(numbers(out@) =~= numbers(before).push(y[j as int]));
            }
            j += 1;
        }
        proof {
            broadcast use vstd::multiset::group_multiset_axioms;
            broadcast use vstd::seq_lib::group_to_multiset_ensures;

            assert(numbers(out@).to_multiset() =~= x.take(i as int).to_multiset().add(
                y.take(j as int).to_multiset(),
            ));
        }
    }
    proof {
        assert(x.take(x.len() as int) =~= x);
        assert(y.take(y.len() as int) =~= y);
    }
    out
}

fn sort(keys: &[i32], start: usize, end: usize) -> (r: Vec<usize>)
    requires
        start <= end <= keys@.len(),
    ensures
        in_order(keys@, numbers(r@)),
        numbers(r@).to_multiset() == places(start as int, end as int).to_multiset(),
        forall|i: int| 0 <= i < r@.len() ==> #[trigger] r@[i] < keys@.len(),
    decreases end - start,
{
    if end - start < 2 {
        let mut out: Vec<usize> = Vec::new();
        if start < end {
            out.push(start);
        }
        proof {
            assert(numbers(out@) =~= places(start as int, end as int));
        }
        return out;
    }
    let middle = start + (end - start) / 2;
    let a = sort(keys, start, middle);
    let b = sort(keys, middle, end);
    proof {
        let x = places(start as int, middle as int);
        let y = places(middle as int, end as int);
        vstd::seq_lib::lemma_multiset_commutative(x, y);
        assert(x + y =~= places(start as int, end as int));
    }
    merge(keys, &a, &b)
}

/// The places of `keys` from the highest key down, those of equal keys in their
/// order.
pub fn rank(keys: &[i32]) -> (r: Vec<usize>)
    ensures
        numbers(r@) == ranked(keys@),
{
    let out = sort(keys, 0, keys.len());
    proof {
        let all = places(0, keys@.len() as int);
        lemma_by_rank(keys@);
        all.lemma_sort_by_ensures(by_rank(keys@));
        assert forall|i: int, j: int| 0 <= i < j < out@.len() implies #[trigger] by_rank(keys@)(
            numbers(out@)[i],
            numbers(out@)[j],
        ) by {
            assert(ranks(keys@, numbers(out@)[i], numbers(out@)[j]));
        }
        vstd::seq_lib::lemma_sorted_unique(numbers(out@), ranked(keys@), by_rank(keys@));
    }
    out
}

} // verus!
