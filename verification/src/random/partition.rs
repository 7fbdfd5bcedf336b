//! Cutting a sequence into consecutive parts at sampled cut points.
use crate::random::model::{
    all_within, draw_k, lemma_draw_k_valid, lemma_permutation_keeps_distinct, pointer_width,
    SampleError, SamplerView,
};
use vstd::prelude::*;
use vstd::relations::{sorted_by, total_ordering};
use vstd::seq_lib::{lemma_sorted_unique, to_multiset_insert, to_multiset_remove};

verus! {

/// The order that cut points are sorted by.
pub open spec fn at_most() -> spec_fn(int, int) -> bool {
    |a: int, b: int| a <= b
}

/// The values of `s` in ascending order.
pub open spec fn ascending_order(s: Seq<int>) -> Seq<int> {
    s.sort_by(at_most())
}

/// The cut points drawn to split a sequence of `len` values into `k` parts.
///
/// Without empty parts a sequence shorter than `k` is refused. One part
/// needs no cut point. Otherwise `k - 1` cut points are sampled: any of
/// `0..=len`, repeats allowed, where parts may be empty, and distinct ones
/// of `1..len` where they may not.
pub open spec fn draw_cuts(
    src: spec_fn(nat) -> u64,
    v: SamplerView,
    len: nat,
    k: nat,
    can_empty: bool,
) -> (SamplerView, Result<Seq<int>, SampleError>) {
    if !can_empty && len < k {
        (v, Err(SampleError::RangeTooSmall))
    } else if k == 1 {
        (v, Ok(Seq::empty()))
    } else if can_empty {
        draw_k(src, v, pointer_width(), 0, len as int + 1, (k - 1) as nat, true)
    } else {
        draw_k(src, v, pointer_width(), 1, len as int, (k - 1) as nat, false)
    }
}

/// Where part `j` starts: at the cut point before it, the first part at 0.
pub open spec fn part_start(cuts: Seq<int>, j: int) -> int {
    if j == 0 {
        0
    } else {
        cuts[j - 1]
    }
}

/// Where part `j` ends: at its cut point, the last part at `len`.
pub open spec fn part_end(cuts: Seq<int>, len: int, j: int) -> int {
    if j == cuts.len() {
        len
    } else {
        cuts[j]
    }
}

/// The parts that ascending cut points split `d` into: one more than there
/// are cut points, each running from one cut point to the next.
pub open spec fn parts_at<T>(d: Seq<T>, cuts: Seq<int>) -> Seq<Seq<T>> {
    Seq::new(
        cuts.len() + 1,
        |j: int| d.subrange(part_start(cuts, j), part_end(cuts, d.len() as int, j)),
    )
}

/// `parts` holds, part by part and value by value, clones of `model`.
pub open spec fn clones_of<T: Clone>(parts: Seq<Vec<T>>, model: Seq<Seq<T>>) -> bool {
    &&& parts.len() == model.len()
    &&& forall|j: int| 0 <= j < parts.len() ==> (#[trigger] parts[j])@.len() == model[j].len()
    &&& forall|j: int, i: int|
        0 <= j < parts.len() && 0 <= i < model[j].len() ==> cloned(
            #[trigger] model[j][i],
            #[trigger] parts[j]@[i],
        )
}

/// Cut points in ascending order that all lie in `0..=len`.
pub open spec fn valid_cuts(cuts: Seq<int>, len: int) -> bool {
    &&& sorted_by(cuts, at_most())
    &&& all_within(cuts, 0, len + 1)
}

/// Mapping the values keeps two sequences permutations of each other.
pub proof fn lemma_map_keeps_permutation<A, B>(x: Seq<A>, y: Seq<A>, f: spec_fn(A) -> B)
    requires
        x.to_multiset() == y.to_multiset(),
    ensures
        x.map_values(f).to_multiset() == y.map_values(f).to_multiset(),
    decreases x.len(),
{
    x.to_multiset_ensures();
    y.to_multiset_ensures();
    if x.len() == 0 {
        assert(y.len() == 0);
        assert(x.map_values(f) =~= y.map_values(f));
    } else {
        let last = x.last();
        let head = x.drop_last();
        assert(x.contains(last));
        assert(y.to_multiset().count(last) > 0);
        assert(y.contains(last));
        let j = choose|j: int| 0 <= j < y.len() && y[j] == last;
        let rest = y.remove(j);
        assert(x =~= head.push(last));
        head.to_multiset_ensures();
        to_multiset_remove(y, j);
        assert(head.to_multiset() =~= x.to_multiset().remove(last)) by {
            to_multiset_remove(x, x.len() - 1);
            assert(x.remove(x.len() - 1) =~= head);
        }
        lemma_map_keeps_permutation(head, rest, f);
        assert(x.map_values(f) =~= head.map_values(f).push(f(last)));
        assert(y.map_values(f) =~= rest.map_values(f).insert(j, f(last)));
        head.map_values(f).to_multiset_ensures();
        to_multiset_insert(rest.map_values(f), j, f(last));
    }
}

/// Sorted cut points are their drawn values in ascending order.
pub proof fn lemma_sorted_is_ascending_order(drawn: Seq<int>, sorted: Seq<int>)
    requires
        sorted_by(sorted, at_most()),
        sorted.to_multiset() == drawn.to_multiset(),
    ensures
        sorted == ascending_order(drawn),
{
    assert(total_ordering(at_most()));
    drawn.lemma_sort_by_ensures(at_most());
    lemma_sorted_unique(sorted, ascending_order(drawn), at_most());
}

/// Sorting keeps the cut points in their range, and distinct if they were.
pub proof fn lemma_ascending_order_valid(drawn: Seq<int>, start: int, end: int)
    requires
        all_within(drawn, start, end),
    ensures
        ascending_order(drawn).len() == drawn.len(),
        sorted_by(ascending_order(drawn), at_most()),
        all_within(ascending_order(drawn), start, end),
        drawn.no_duplicates() ==> ascending_order(drawn).no_duplicates(),
{
    let sorted = ascending_order(drawn);
    assert(total_ordering(at_most()));
    drawn.lemma_sort_by_ensures(at_most());
    drawn.to_multiset_ensures();
    sorted.to_multiset_ensures();
    assert forall|i: int| 0 <= i < sorted.len() implies start <= #[trigger] sorted[i] < end by {
        assert(sorted.contains(sorted[i]));
        assert(drawn.to_multiset().count(sorted[i]) > 0);
        assert(drawn.contains(sorted[i]));
    }
    if drawn.no_duplicates() {
        lemma_permutation_keeps_distinct(drawn, sorted, start, end);
    }
}

/// The first `n` parts, put end to end, are `d` up to where part `n` starts.
proof fn lemma_parts_prefix<T>(d: Seq<T>, cuts: Seq<int>, n: int)
    requires
        valid_cuts(cuts, d.len() as int),
        0 <= n <= cuts.len() + 1,
    ensures
        parts_at(d, cuts).take(n).flatten() =~= d.subrange(
            0,
            if n == 0 {
                0
            } else {
                part_end(cuts, d.len() as int, n - 1)
            },
        ),
    decreases n,
{
    let parts = parts_at(d, cuts);
    if n == 0 {
        assert(parts.take(0) =~= Seq::<Seq<T>>::empty());
    } else {
        lemma_parts_prefix(d, cuts, n - 1);
        let j = n - 1;
        assert(parts.take(n) =~= parts.take(j).push(parts[j]));
        parts.take(j).lemma_flatten_push(parts[j]);
        if j > 0 {
            assert(at_most()(cuts[j - 1], part_end(cuts, d.len() as int, j))) by {
                if j < cuts.len() {
                    assert(at_most()(cuts[j - 1], cuts[j]));
                }
            }
        }
    }
}

/// The parts are as many as the cut points and one more, in the order of
/// `d`, and put end to end they are `d`.
pub proof fn lemma_parts_concatenate<T>(d: Seq<T>, cuts: Seq<int>)
    requires
        valid_cuts(cuts, d.len() as int),
    ensures
        parts_at(d, cuts).len() == cuts.len() + 1,
        parts_at(d, cuts).flatten() == d,
{
    let parts = parts_at(d, cuts);
    lemma_parts_prefix(d, cuts, cuts.len() as int + 1);
    assert(parts.take(cuts.len() as int + 1) =~= parts);
    assert(d.subrange(0, d.len() as int) =~= d);
}

/// Between distinct cut points strictly inside `d` no part is empty.
pub proof fn lemma_parts_nonempty<T>(d: Seq<T>, cuts: Seq<int>)
    requires
        d.len() > 0,
        sorted_by(cuts, at_most()),
        all_within(cuts, 1, d.len() as int),
        cuts.no_duplicates(),
    ensures
        forall|j: int| 0 <= j <= cuts.len() ==> (#[trigger] parts_at(d, cuts)[j]).len() > 0,
{
    assert forall|j: int| 0 <= j <= cuts.len() implies (#[trigger] parts_at(d, cuts)[j]).len()
        > 0 by {
        if 0 < j < cuts.len() {
            assert(at_most()(cuts[j - 1], cuts[j]));
            assert(cuts[j - 1] != cuts[j]);
        }
    }
}

/// The cut points drawn for `k >= 1` parts are `k - 1` values of `0..=len`,
/// and distinct values of `1..len` where no part may be empty.
pub proof fn lemma_draw_cuts_valid(
    src: spec_fn(nat) -> u64,
    v: SamplerView,
    len: nat,
    k: nat,
    can_empty: bool,
)
    requires
        k >= 1,
    ensures
        match draw_cuts(src, v, len, k, can_empty).1 {
            Ok(drawn) => {
                &&& drawn.len() == k - 1
                &&& all_within(drawn, 0, len as int + 1)
                &&& !can_empty ==> len >= k && all_within(drawn, 1, len as int)
                    && drawn.no_duplicates()
            },
            Err(e) => if !can_empty && len < k {
                e == SampleError::RangeTooSmall
            } else {
                e == SampleError::RetryLimit
            },
        },
{
    if !can_empty && len < k {
    } else if k == 1 {
    } else if can_empty {
        lemma_draw_k_valid(src, v, pointer_width(), 0, len as int + 1, (k - 1) as nat, true);
    } else {
        lemma_draw_k_valid(src, v, pointer_width(), 1, len as int, (k - 1) as nat, false);
    }
}

} // verus!
