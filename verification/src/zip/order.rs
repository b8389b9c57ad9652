//! The order in which entries stand in a file.

use vstd::prelude::*;
use vstd::relations::{sorted_by, total_ordering};
use vstd::seq_lib::{group_to_multiset_ensures, lemma_multiset_commutative, lemma_sorted_unique};

verus! {

/// Whether index `i` comes no later than index `j`: by key, and among equal keys by index.
pub open spec fn comes_before(keys: Seq<int>, i: int, j: int) -> bool {
    keys[i] < keys[j] || (keys[i] == keys[j] && i <= j)
}

/// The indices of `keys`, ordered by key; indices with equal keys keep their order.
pub open spec fn stable_order(keys: Seq<int>) -> Seq<int> {
    Seq::new(keys.len(), |i: int| i).sort_by(|i: int, j: int| comes_before(keys, i, j))
}

/// The values of a sequence of machine integers.
pub open spec fn ints(s: Seq<usize>) -> Seq<int> {
    s.map_values(|i: usize| i as int)
}

pub open spec fn keys_of(s: Seq<u64>) -> Seq<int> {
    s.map_values(|k: u64| k as int)
}

proof fn lemma_total(keys: Seq<int>)
    ensures
        total_ordering(|i: int, j: int| comes_before(keys, i, j)),
{
}

/// The stable order takes each index once, and by rising keys.
pub proof fn lemma_stable_order(keys: Seq<int>)
    ensures
        stable_order(keys).len() == keys.len(),
        stable_order(keys).no_duplicates(),
        forall|k: int|
            0 <= k < keys.len() ==> 0 <= #[trigger] stable_order(keys)[k] < keys.len(),
        forall|i: int| 0 <= i < keys.len() ==> #[trigger] stable_order(keys).contains(i),
        forall|k: int, l: int|
            0 <= k < l < keys.len() ==> comes_before(
                keys,
                #[trigger] stable_order(keys)[k],
                #[trigger] stable_order(keys)[l],
            ),
{
    broadcast use group_to_multiset_ensures;

    let all = Seq::new(keys.len(), |i: int| i);
    let leq = |i: int, j: int| comes_before(keys, i, j);
    let order = stable_order(keys);
    lemma_total(keys);
    all.lemma_sort_by_ensures(leq);
    assert(all.no_duplicates());
    assert(all.to_multiset().len() == order.to_multiset().len());
    assert forall|i: int| 0 <= i < keys.len() implies #[trigger] order.contains(i) by {
        assert(all[i] == i);
        assert(all.contains(i));
        assert(all.to_multiset().count(i) > 0);
    }
    assert forall|k: int| 0 <= k < keys.len() implies 0 <= #[trigger] order[k] < keys.len() by {
        assert(order.contains(order[k]));
        assert(all.contains(order[k]));
    }
    all.lemma_multiset_has_no_duplicates();
    order.lemma_multiset_has_no_duplicates_conv();
    assert forall|k: int, l: int| 0 <= k < l < keys.len() implies comes_before(
        keys,
        #[trigger] order[k],
        #[trigger] order[l],
    ) by {
        assert(leq(order[k], order[l]));
    }
}

/// The two ordered lists of indices as one.
fn merge(keys: &[u64], a: &Vec<usize>, b: &Vec<usize>) -> (out: Vec<usize>)
    requires
        forall|k: int| 0 <= k < a@.len() ==> #[trigger] a@[k] < keys@.len(),
        forall|k: int| 0 <= k < b@.len() ==> #[trigger] b@[k] < keys@.len(),
        sorted_by(ints(a@), |i: int, j: int| comes_before(keys_of(keys@), i, j)),
        sorted_by(ints(b@), |i: int, j: int| comes_before(keys_of(keys@), i, j)),
    ensures
        forall|k: int| 0 <= k < out@.len() ==> #[trigger] out@[k] < keys@.len(),
        sorted_by(ints(out@), |i: int, j: int| comes_before(keys_of(keys@), i, j)),
        ints(out@).to_multiset() == ints(a@).to_multiset().add(ints(b@).to_multiset()),
{
    broadcast use group_to_multiset_ensures;

    let ghost leq = |i: int, j: int| comes_before(keys_of(keys@), i, j);
    let mut out: Vec<usize> = Vec::new();
    let mut i: usize = 0;
    let mut j: usize = 0;
    assert(ints(a@).take(0) =~= Seq::empty());
    assert(ints(b@).take(0) =~= Seq::empty());
    assert(ints(out@) =~= Seq::empty());
    assert(Seq::<int>::empty().to_multiset() =~= Seq::<int>::empty().to_multiset().add(
        Seq::<int>::empty().to_multiset(),
    ));
    while i < a.len() || j < b.len()
        invariant
            i <= a@.len(),
            j <= b@.len(),
            leq == (|i: int, j: int| comes_before(keys_of(keys@), i, j)),
            forall|k: int| 0 <= k < a@.len() ==> #[trigger] a@[k] < keys@.len(),
            forall|k: int| 0 <= k < b@.len() ==> #[trigger] b@[k] < keys@.len(),
            sorted_by(ints(a@), leq),
            sorted_by(ints(b@), leq),
            forall|k: int| 0 <= k < out@.len() ==> #[trigger] out@[k] < keys@.len(),
            sorted_by(ints(out@), leq),
            forall|k: int, l: int|
                0 <= k < out@.len() && i <= l < a@.len() ==> comes_before(
                    keys_of(keys@),
                    #[trigger] out@[k] as int,
                    #[trigger] a@[l] as int,
                ),
            forall|k: int, l: int|
                0 <= k < out@.len() && j <= l < b@.len() ==> comes_before(
                    keys_of(keys@),
                    #[trigger] out@[k] as int,
                    #[trigger] b@[l] as int,
                ),
            ints(out@).to_multiset() == ints(a@).take(i as int).to_multiset().add(
                ints(b@).take(j as int).to_multiset(),
            ),
        decreases a@.len() - i + b@.len() - j,
    {
        let from_a: bool = if i >= a.len() {
            false
        } else if j >= b.len() {
            true
        } else {
            let x: usize = a[i];
            let y: usize = b[j];
            keys[x] < keys[y] || (keys[x] == keys[y] && x <= y)
        };
        let ghost before = out@;
        if from_a {
            let x: usize = a[i];
            out.push(x);
            proof {
                broadcast use group_to_multiset_ensures;

                assert(ints(out@) =~= ints(before).push(x as int));
                assert(ints(a@).take(i + 1) =~= ints(a@).take(i as int).push(x as int));
                assert(ints(out@).to_multiset() =~= ints(a@).take(i + 1).to_multiset().add(
                    ints(b@).take(j as int).to_multiset(),
                ));
                assert forall|l: int| i <= l < a@.len() implies comes_before(
                    keys_of(keys@),
                    x as int,
                    #[trigger] a@[l] as int,
                ) by {
                    if l > i {
                        assert(leq(ints(a@)[i as int], ints(a@)[l]));
                    }
                }
                assert forall|l: int| j <= l < b@.len() implies comes_before(
                    keys_of(keys@),
                    x as int,
                    #[trigger] b@[l] as int,
                ) by {
                    if l > j {
                        assert(leq(ints(b@)[j as int], ints(b@)[l]));
                    }
                }
                assert forall|k: int, l: int| 0 <= k < l < ints(out@).len() implies leq(
                    ints(out@)[k],
                    ints(out@)[l],
                ) by {
                    if l < before.len() {
                        assert(leq(ints(before)[k], ints(before)[l]));
                    } else {
                        assert(comes_before(keys_of(keys@), before[k] as int, a@[i as int] as int));
                    }
                }
            }
            i += 1;
        } else {
            let y: usize = b[j];
            out.push(y);
            proof {
                broadcast use group_to_multiset_ensures;

                assert(ints(out@) =~= ints(before).push(y as int));
                assert(ints(b@).take(j + 1) =~= ints(b@).take(j as int).push(y as int));
                assert(ints(out@).to_multiset() =~= ints(a@).take(i as int).to_multiset().add(
                    ints(b@).take(j + 1).to_multiset(),
                ));
                assert forall|l: int| j <= l < b@.len() implies comes_before(
                    keys_of(keys@),
                    y as int,
                    #[trigger] b@[l] as int,
                ) by {
                    if l > j {
                        assert(leq(ints(b@)[j as int], ints(b@)[l]));
                    }
                }
                assert forall|l: int| i <= l < a@.len() implies comes_before(
                    keys_of(keys@),
                    y as int,
                    #[trigger] a@[l] as int,
                ) by {
                    if l > i {
                        assert(leq(ints(a@)[i as int], ints(a@)[l]));
                    }
                }
                assert forall|k: int, l: int| 0 <= k < l < ints(out@).len() implies leq(
                    ints(out@)[k],
                    ints(out@)[l],
                ) by {
                    if l < before.len() {
                        assert(leq(ints(before)[k], ints(before)[l]));
                    } else {
                        assert(comes_before(keys_of(keys@), before[k] as int, b@[j as int] as int));
                    }
                }
            }
            j += 1;
        }
    }
    assert(ints(a@).take(i as int) =~= ints(a@));
    assert(ints(b@).take(j as int) =~= ints(b@));
    out
}

/// The indices from `lo` up to `hi` in order.
fn sort_range(keys: &[u64], lo: usize, hi: usize) -> (out: Vec<usize>)
    requires
        lo <= hi <= keys@.len(),
    ensures
        forall|k: int| 0 <= k < out@.len() ==> #[trigger] out@[k] < keys@.len(),
        sorted_by(ints(out@), |i: int, j: int| comes_before(keys_of(keys@), i, j)),
        ints(out@).to_multiset() == Seq::new((hi - lo) as nat, |i: int| lo + i).to_multiset(),
    decreases hi - lo,
{
    if hi - lo <= 1 {
        let mut out: Vec<usize> = Vec::new();
        if lo < hi {
            out.push(lo);
        }
        assert(ints(out@) =~= Seq::new((hi - lo) as nat, |i: int| lo + i));
        out
    } else {
        let mid: usize = lo + (hi - lo) / 2;
        let a = sort_range(keys, lo, mid);
        let b = sort_range(keys, mid, hi);
        proof {
            let left = Seq::new((mid - lo) as nat, |i: int| lo + i);
            let right = Seq::new((hi - mid) as nat, |i: int| mid + i);
            assert(left + right =~= Seq::new((hi - lo) as nat, |i: int| lo + i));
            lemma_multiset_commutative(left, right);
        }
        merge(keys, &a, &b)
    }
}

/// The indices of `keys`, ordered by key; indices with equal keys keep their order.
pub fn sort_by_key(keys: &[u64]) -> (out: Vec<usize>)
    ensures
        ints(out@) == stable_order(keys_of(keys@)),
        forall|k: int| 0 <= k < out@.len() ==> #[trigger] out@[k] < keys@.len(),
{
    let out = sort_range(keys, 0, keys.len());
    proof {
        let ks = keys_of(keys@);
        let leq = |i: int, j: int| comes_before(ks, i, j);
        let all = Seq::new(ks.len(), |i: int| i);
        lemma_total(ks);
        all.lemma_sort_by_ensures(leq);
        assert(all =~= Seq::new((keys.len() - 0) as nat, |i: int| 0 + i));
        lemma_sorted_unique(ints(out@), stable_order(ks), leq);
    }
    out
}

/// The order goes by rising keys, and where keys are equal, by rising index; each index stands in
/// it once.
pub proof fn law_stable_order(keys: Seq<int>, k: int, l: int)
    requires
        0 <= k < l < keys.len(),
    ensures
        stable_order(keys).len() == keys.len(),
        0 <= stable_order(keys)[k] < keys.len(),
        stable_order(keys)[k] != stable_order(keys)[l],
        keys[stable_order(keys)[k]] <= keys[stable_order(keys)[l]],
        keys[stable_order(keys)[k]] == keys[stable_order(keys)[l]] ==> stable_order(keys)[k]
            < stable_order(keys)[l],
{
    lemma_stable_order(keys);
}

} // verus!
