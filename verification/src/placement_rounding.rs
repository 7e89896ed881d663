//! Largest-remainder rounding: within a group, the units that the whole
//! parts leave over go one each to the candidates with the largest
//! remainders.

use vstd::prelude::*;

use crate::placement::{
    allocation, bounded_share, first_pass, floor_total, group_leftover, group_members, group_weights,
    members_upto, precedes, remainder_order, spread_leftover, ShareCandidate,
};
use crate::placement_order::{
    distinct_ids, first_values, lemma_first_pass_values, lemma_first_values_at, lemma_group_values,
    lemma_members_increasing, lemma_precedes_by_value, lemma_remainder_order, lemma_value_precedes_order,
    lemma_values_distinct, lemma_weights_from_group, values_at,
};

verus! {

/// Sum of the whole units of the candidates of group `g` among the first
/// `n`.
pub open spec fn group_floor_sum_upto(cs: Seq<ShareCandidate>, g: u32, n: int) -> int
    decreases n,
{
    if n <= 0 {
        0
    } else {
        group_floor_sum_upto(cs, g, n - 1) + if cs[n - 1].selection_group == g {
            cs[n - 1].floor_share as int
        } else {
            0
        }
    }
}

/// Number of candidates of group `g` among the first `n`.
pub open spec fn group_size_upto(cs: Seq<ShareCandidate>, g: u32, n: int) -> int
    decreases n,
{
    if n <= 0 {
        0
    } else {
        group_size_upto(cs, g, n - 1) + if cs[n - 1].selection_group == g {
            1int
        } else {
            0
        }
    }
}

/// Sum of the whole units of group `g`.
pub open spec fn group_floor_sum(cs: Seq<ShareCandidate>, g: u32) -> int {
    group_floor_sum_upto(cs, g, cs.len() as int)
}

/// Number of candidates in group `g`.
pub open spec fn group_size(cs: Seq<ShareCandidate>, g: u32) -> int {
    group_size_upto(cs, g, cs.len() as int)
}

/// The candidates of `i`'s group that receive a leftover unit before `i`.
pub open spec fn ahead_of(cs: Seq<ShareCandidate>, i: int) -> Set<int> {
    Set::new(
        |j: int|
            0 <= j < cs.len() && cs[j].selection_group == cs[i].selection_group && precedes(cs, j, i),
    )
}

proof fn lemma_members_sum(cs: Seq<ShareCandidate>, g: u32, n: int)
    requires
        0 <= n <= cs.len(),
        cs.len() <= usize::MAX,
    ensures
        floor_total(cs, members_upto(cs, g, n)) == group_floor_sum_upto(cs, g, n),
        members_upto(cs, g, n).len() == group_size_upto(cs, g, n),
    decreases n,
{
    if n > 0 {
        lemma_members_sum(cs, g, n - 1);
        if cs[n - 1].selection_group == g {
            let prev = members_upto(cs, g, n - 1);
            assert(members_upto(cs, g, n) == prev.push((n - 1) as usize));
            assert(prev.push((n - 1) as usize).drop_last() =~= prev);
        }
    }
}

proof fn lemma_spread_nothing(cs: Seq<ShareCandidate>, order: Seq<usize>, hi: u32, m: Map<Seq<char>, u32>)
    ensures
        spread_leftover(cs, order, hi, m, 0) == (m, 0int),
    decreases order.len(),
{
    if order.len() > 0 {
        lemma_spread_nothing(cs, order.drop_last(), hi, m);
    }
}

/// In the remainder order of a group, a candidate stands after exactly
/// the candidates that precede it.
proof fn lemma_position_is_rank(cs: Seq<ShareCandidate>, i: int) -> (p: int)
    requires
        cs.len() <= usize::MAX,
        distinct_ids(cs),
        0 <= i < cs.len(),
    ensures
        0 <= p < remainder_order(cs, group_members(cs, cs[i].selection_group)).len(),
        remainder_order(cs, group_members(cs, cs[i].selection_group))[p] == i,
        ahead_of(cs, i).len() == p,
{
    let g = cs[i].selection_group;
    let mem = group_members(cs, g);
    lemma_members_increasing(cs, g, cs.len() as int);
    lemma_group_values(cs, g);
    lemma_remainder_order(cs, mem);
    let order = remainder_order(cs, mem);
    let k = choose|k: int| 0 <= k < mem.len() && mem[k] == i;
    assert(mem.to_set().contains(mem[k]));
    assert(order.to_set().contains(i as usize));
    let p = choose|p: int| 0 <= p < order.len() && order[p] == i as usize;
    let before = order.take(p).map_values(|u: usize| u as int);
    assert forall|a: int, b: int| 0 <= a < before.len() && 0 <= b < before.len() && a != b implies before[a]
        != before[b] by {
        assert(order[a] != order[b]);
    }
    assert(before.no_duplicates());
    before.unique_seq_to_set();
    assert(ahead_of(cs, i) =~= before.to_set()) by {
        assert forall|j: int| ahead_of(cs, i).contains(j) implies before.to_set().contains(j) by {
            let kj = choose|kj: int| 0 <= kj < mem.len() && mem[kj] == j;
            assert(mem.to_set().contains(mem[kj]));
            assert(order.to_set().contains(j as usize));
            let q = choose|q: int| 0 <= q < order.len() && order[q] == j as usize;
            lemma_precedes_by_value(cs, j, i);
            lemma_value_precedes_order(cs[j], cs[i], cs[i]);
            if q > p {
                assert(precedes(cs, order[p] as int, order[q] as int));
                lemma_precedes_by_value(cs, i, j);
            }
            assert(q != p);
            assert(before[q] == j);
        }
        assert forall|j: int| before.to_set().contains(j) implies ahead_of(cs, i).contains(j) by {
            let q = choose|q: int| 0 <= q < before.len() && before[q] == j;
            assert(order[q] as int == j);
            assert(precedes(cs, order[q] as int, order[p] as int));
            assert(order.to_set().contains(order[q]));
            assert(mem.to_set().contains(order[q]));
            let kq = choose|kq: int| 0 <= kq < mem.len() && mem[kq] == order[q];
        }
    }
    p
}

/// Largest-remainder rounding. Take a group whose whole parts sum to at
/// most the maximum weight and leave over no more units than the group has
/// candidates, and whose whole parts lie within the bounds with room for
/// one more unit. Then each candidate of the group gets its whole part,
/// plus one unit exactly when fewer candidates of the group than the units
/// left over precede it (larger remainder, then smaller identity). So the
/// candidates with the largest remainders get one unit each, and no
/// candidate gets two.
pub proof fn lemma_largest_remainder(cs: Seq<ShareCandidate>, lo: u32, hi: u32, i: int)
    requires
        cs.len() <= usize::MAX,
        distinct_ids(cs),
        0 <= i < cs.len(),
        group_floor_sum(cs, cs[i].selection_group) <= hi,
        hi - group_floor_sum(cs, cs[i].selection_group) <= group_size(cs, cs[i].selection_group),
        forall|j: int|
            0 <= j < cs.len() && #[trigger] cs[j].selection_group == cs[i].selection_group ==> lo
                <= cs[j].floor_share < hi,
    ensures
        allocation(cs, lo, hi).contains_key(cs[i].stable_id@),
        allocation(cs, lo, hi)[cs[i].stable_id@] == cs[i].floor_share + if ahead_of(cs, i).len() < hi
            - group_floor_sum(cs, cs[i].selection_group) {
            1int
        } else {
            0int
        },
{
    let g = cs[i].selection_group;
    let k = cs[i].stable_id@;
    let mem = group_members(cs, g);
    lemma_members_sum(cs, g, cs.len() as int);
    lemma_members_increasing(cs, g, cs.len() as int);
    lemma_group_values(cs, g);
    lemma_remainder_order(cs, mem);
    lemma_values_distinct(cs, mem);
    let order = remainder_order(cs, mem);
    let r = hi - group_floor_sum(cs, g);
    assert(group_leftover(cs, mem, hi) == r);
    let chosen = order.take(r);
    let p = lemma_position_is_rank(cs, i);
    lemma_weights_from_group(cs, 0, lo, hi, Map::empty(), i);
    // The whole pass.
    lemma_first_pass_values(cs, mem, chosen, lo, hi, Map::empty());
    let vals = values_at(cs, mem);
    let cvals = values_at(cs, chosen);
    lemma_first_values_at(vals, cvals, lo, hi, Map::empty());
    let m1 = first_pass(cs, mem, chosen, lo, hi, Map::empty());
    lemma_spread_nothing(cs, order, hi, m1);
    assert(group_weights(cs, g, lo, hi, Map::empty()) == m1);
    let q = choose|q: int| 0 <= q < mem.len() && mem[q] == i;
    assert(vals[q] == cs[i]);
    assert(m1[k] == bounded_share(cs[i].floor_share, cvals.contains(cs[i]), lo, hi));
    // `i` is chosen exactly when fewer than `r` candidates precede it.
    assert(cvals.contains(cs[i]) == (p < r)) by {
        if p < r {
            assert(chosen[p] == i);
            assert(cvals[p] == cs[i]);
        }
        if cvals.contains(cs[i]) {
            let t = choose|t: int| 0 <= t < cvals.len() && cvals[t] == cs[i];
            let j = chosen[t] as int;
            assert(order[t] == chosen[t]);
            assert(j < cs.len());
            if j < i {
                assert(cs[j].stable_id@ != cs[i].stable_id@);
            } else if i < j {
                assert(cs[i].stable_id@ != cs[j].stable_id@);
            }
            assert(order[t] == order[p]);
        }
    }
    assert(lo <= cs[i].floor_share < hi);
}

} // verus!
