//! Sorting by a measure, and the value at a given rank.
use vstd::prelude::*;

verus! {

/// Orders by key, and among equal keys by the position at which each one stood.
pub open spec fn before_or_same(a: (i128, usize), b: (i128, usize)) -> bool {
    a.0 < b.0 || (a.0 == b.0 && a.1 <= b.1)
}

/// Each key with the position at which it stands.
pub open spec fn numbered(keys: Seq<i128>) -> Seq<(i128, usize)> {
    Seq::new(keys.len(), |i: int| (keys[i], i as usize))
}

/// The keys in ascending order, each with the position at which it stood. Equal keys keep
/// their order.
pub open spec fn ranked(keys: Seq<i128>) -> Seq<(i128, usize)> {
    numbered(keys).sort_by(|a: (i128, usize), b: (i128, usize)| before_or_same(a, b))
}

/// The rank that stands for a percentage of the way through `n` values, to the nearest
/// integer.
pub open spec fn rank_of(n: nat, percentage: nat) -> nat {
    ((n - 1) * percentage + 50) as nat / 100
}

/// The value at a percentage of the way through the values in ascending order, and zero where
/// there are none.
pub open spec fn percentile_of(values: Seq<i128>, percentage: nat) -> i128 {
    if values.len() == 0 {
        0
    } else {
        ranked(values)[rank_of(values.len(), percentage) as int].0
    }
}

/// Every pair stands no later than the ones after it.
pub open spec fn in_order(s: Seq<(i128, usize)>) -> bool {
    forall|i: int, j: int|
        0 <= i < j < s.len() ==> before_or_same(#[trigger] s[i], #[trigger] s[j])
}

proof fn lemma_total_order()
    ensures
        vstd::relations::total_ordering(
            |a: (i128, usize), b: (i128, usize)| before_or_same(a, b),
        ),
{
}

/// Ranking loses no key, makes none up, and leaves the keys in ascending order.
pub proof fn ranking_sorts(keys: Seq<i128>)
    requires
        keys.len() <= usize::MAX,
    ensures
        ranked(keys).len() == keys.len(),
        in_order(ranked(keys)),
        ranked(keys).to_multiset() == numbered(keys).to_multiset(),
        forall|i: int|
            #![trigger ranked(keys)[i]]
            0 <= i < keys.len() ==> ranked(keys)[i].1 < keys.len() && ranked(keys)[i].0
                == keys[ranked(keys)[i].1 as int],
{
    broadcast use vstd::seq_lib::group_to_multiset_ensures;

    let leq = |a: (i128, usize), b: (i128, usize)| before_or_same(a, b);
    lemma_total_order();
    numbered(keys).lemma_sort_by_ensures(leq);
    let s = ranked(keys);
    assert forall|i: int, j: int| 0 <= i < j < s.len() implies before_or_same(
        #[trigger] s[i],
        #[trigger] s[j],
    ) by {
        assert(leq(s[i], s[j]));
    }
    assert(s.len() == s.to_multiset().len());
    assert(numbered(keys).len() == numbered(keys).to_multiset().len());
    assert forall|i: int| #![trigger s[i]] 0 <= i < keys.len() implies s[i].1 < keys.len()
        && s[i].0 == keys[s[i].1 as int] by {
        assert(s.contains(s[i]));
        assert(numbered(keys).contains(s[i]));
        let k = choose|k: int| 0 <= k < keys.len() && numbered(keys)[k] == s[i];
        assert(numbered(keys)[k] == (keys[k], k as usize));
    }
}

/// The percentile of some values is one of them, and stands at its rank: at least as many
/// values as its rank are no greater, and all the others are no smaller.
pub proof fn percentile_is_a_value(values: Seq<i128>, percentage: nat)
    requires
        0 < values.len() <= usize::MAX,
        percentage <= 100,
    ensures
        values.contains(percentile_of(values, percentage)),
        rank_of(values.len(), percentage) < values.len(),
        forall|i: int|
            0 <= i <= rank_of(values.len(), percentage) ==> (#[trigger] ranked(values)[i]).0
                <= percentile_of(values, percentage),
        forall|i: int|
            rank_of(values.len(), percentage) <= i < values.len() ==> percentile_of(
                values,
                percentage,
            ) <= (#[trigger] ranked(values)[i]).0,
{
    ranking_sorts(values);
    lemma_rank_in_range(values.len(), percentage);
    let k = rank_of(values.len(), percentage) as int;
    assert(ranked(values)[k].0 == values[ranked(values)[k].1 as int]);
}

/// The positions are all those of a list, each one once.
pub open spec fn are_all_positions(order: Seq<int>, n: nat) -> bool {
    &&& order.len() == n
    &&& forall|i: int| 0 <= i < n ==> 0 <= #[trigger] order[i] < n
    &&& forall|i: int, j: int|
        0 <= i < j < n ==> #[trigger] order[i] != #[trigger] order[j]
}

/// Read at these positions, the values ascend. Equal values keep their order.
pub open spec fn ascends(values: Seq<i128>, order: Seq<int>) -> bool {
    forall|i: int, j: int|
        0 <= i < j < order.len() ==> values[#[trigger] order[i]] < values[#[trigger] order[j]] || (
        values[order[i]] == values[order[j]] && order[i] < order[j])
}

/// Ranking gives every key once, with its own position, in ascending order, equal keys in the
/// order in which they stood.
pub proof fn ranking_is_a_stable_permutation(keys: Seq<i128>)
    requires
        keys.len() <= usize::MAX,
    ensures
        ({
            let order = ranked(keys).map_values(|p: (i128, usize)| p.1 as int);
            &&& are_all_positions(order, keys.len())
            &&& ascends(keys, order)
            &&& forall|i: int|
                0 <= i < keys.len() ==> (#[trigger] ranked(keys)[i]).0 == keys[order[i]]
        }),
{
    broadcast use vstd::seq_lib::group_to_multiset_ensures;

    ranking_sorts(keys);
    let s = ranked(keys);
    let all = numbered(keys);
    let order = s.map_values(|p: (i128, usize)| p.1 as int);
    assert(all.no_duplicates());
    all.lemma_multiset_has_no_duplicates();
    assert(s.no_duplicates()) by {
        s.lemma_multiset_has_no_duplicates_conv();
    }
    assert forall|i: int, j: int| 0 <= i < j < keys.len() implies #[trigger] order[i]
        != #[trigger] order[j] by {
        assert(s[i] != s[j]);
        assert(s[i].0 == keys[s[i].1 as int] && s[j].0 == keys[s[j].1 as int]);
    }
    assert forall|i: int, j: int| 0 <= i < j < order.len() implies keys[#[trigger] order[i]]
        < keys[#[trigger] order[j]] || (keys[order[i]] == keys[order[j]] && order[i] < order[j]) by {
        assert(before_or_same(s[i], s[j]));
        assert(order[i] != order[j]);
    }
    assert forall|i: int| 0 <= i < keys.len() implies 0 <= #[trigger] order[i] < keys.len() by {
        assert(s[i].1 < keys.len());
    }
}

/// The percentile is the value whose rank among the sorted values lies nearest to that share of
/// the way from the first to the last: the first at 0, the last at 100.
pub proof fn percentile_stands_at_its_share(values: Seq<i128>, percentage: nat)
    requires
        0 < values.len() <= usize::MAX,
        percentage <= 100,
    ensures
        exists|order: Seq<int>, k: int|
            {
                &&& #[trigger] are_all_positions(order, values.len())
                &&& ascends(values, order)
                &&& 0 <= k < values.len()
                &&& #[trigger] order[k] < values.len()
                &&& -50 < 100 * k - (values.len() - 1) * percentage <= 50
                &&& percentile_of(values, percentage) == values[order[k]]
            },
{
    ranking_is_a_stable_permutation(values);
    lemma_rank_in_range(values.len(), percentage);
    let order = ranked(values).map_values(|p: (i128, usize)| p.1 as int);
    let k = rank_of(values.len(), percentage) as int;
    let share = (values.len() - 1) * percentage;
    assert(share >= 0) by (nonlinear_arith)
        requires
            share == (values.len() - 1) * percentage,
            values.len() > 0,
    ;
    assert(k == (share + 50) / 100);
    assert(ranked(values)[k].0 == values[order[k]]);
    assert(are_all_positions(order, values.len()) && order[k] < values.len());
}

pub proof fn lemma_rank_in_range(n: nat, percentage: nat)
    requires
        0 < n,
        percentage <= 100,
    ensures
        rank_of(n, percentage) < n,
{
    assert((n - 1) * percentage <= (n - 1) * 100) by (nonlinear_arith)
        requires
            0 < n,
            percentage <= 100,
    ;
}

/// `<[T]>::sort` leaves the same pairs behind, in the lexicographic order of tuples.
#[verifier::external_body]
fn sort_pairs(v: &mut Vec<(i128, usize)>)
    ensures
        final(v)@.to_multiset() == old(v)@.to_multiset(),
        in_order(final(v)@),
{
    v.sort();
}

/// Puts the keys in ascending order, each with the position at which it stood.
pub fn rank(keys: &Vec<i128>) -> (r: Vec<(i128, usize)>)
    ensures
        r@ == ranked(keys@),
{
    let mut pairs: Vec<(i128, usize)> = Vec::new();
    for i in 0..keys.len()
        invariant
            pairs@ == numbered(keys@).take(i as int),
    {
        pairs.push((keys[i], i));
        assert(pairs@ == numbered(keys@).take(i + 1));
    }
    assert(numbered(keys@).take(keys@.len() as int) == numbered(keys@));
    sort_pairs(&mut pairs);
    proof {
        let leq = |a: (i128, usize), b: (i128, usize)| before_or_same(a, b);
        lemma_total_order();
        numbered(keys@).lemma_sort_by_ensures(leq);
        vstd::seq_lib::lemma_sorted_unique(pairs@, ranked(keys@), leq);
    }
    pairs
}

/// The value at the nearest rank to a percentage of the way through the sorted values.
pub fn percentile(values: &Vec<i128>, percentage: u32) -> (r: i128)
    requires
        percentage <= 100,
    ensures
        r == percentile_of(values@, percentage as nat),
{
    if values.len() == 0 {
        return 0;
    }
    let pairs = rank(values);
    proof {
        ranking_sorts(values@);
        lemma_rank_in_range(values@.len(), percentage as nat);
    }
    let n: u128 = values.len() as u128;
    assert((n - 1) * percentage <= (n - 1) * 100) by (nonlinear_arith)
        requires
            0 < n,
            percentage <= 100,
    ;
    let at: usize = (((n - 1) * (percentage as u128) + 50) / 100) as usize;
    pairs[at].0
}

} // verus!
