//! Properties of pressure-weighted placement that hold for every input.

use vstd::prelude::*;

use crate::placement::{
    allocation, changed_materially, first_pass, group_leftover, group_members, group_weights,
    material_change, members_upto, remainder_order, settled, smallest_group_from, spread_leftover,
    weights_from, config_valid, PressureWeightedConfig, ShareCandidate,
};

verus! {

/// Every weight in `m` lies within `[lo, hi]`.
pub open spec fn within_bounds(m: Map<Seq<char>, u32>, lo: u32, hi: u32) -> bool {
    forall|id: Seq<char>| #[trigger] m.contains_key(id) ==> lo <= m[id] <= hi
}

/// The identities of the candidates whose group is at least `lo`.
pub open spec fn identities_from(cs: Seq<ShareCandidate>, lo: int) -> Set<Seq<char>> {
    Set::new(|id: Seq<char>| exists|i: int| 0 <= i < cs.len() && cs[i].selection_group >= lo
        && #[trigger] cs[i].stable_id@ == id)
}

/// The identities of all candidates.
pub open spec fn identities(cs: Seq<ShareCandidate>) -> Set<Seq<char>> {
    identities_from(cs, 0)
}

proof fn lemma_first_pass(
    cs: Seq<ShareCandidate>,
    mem: Seq<usize>,
    chosen: Seq<usize>,
    lo: u32,
    hi: u32,
    m: Map<Seq<char>, u32>,
)
    requires
        lo <= hi,
        within_bounds(m, lo, hi),
    ensures
        within_bounds(first_pass(cs, mem, chosen, lo, hi, m), lo, hi),
        first_pass(cs, mem, chosen, lo, hi, m).dom() == m.dom().union(
            Set::new(|id: Seq<char>| exists|k: int| 0 <= k < mem.len() && #[trigger] cs[mem[k] as int].stable_id@ == id),
        ),
    decreases mem.len(),
{
    if mem.len() > 0 {
        let rest = mem.drop_last();
        lemma_first_pass(cs, rest, chosen, lo, hi, m);
        let i = mem.last();
        let s_rest = Set::new(|id: Seq<char>| exists|k: int| 0 <= k < rest.len() && #[trigger] cs[rest[k] as int].stable_id@ == id);
        let s_all = Set::new(|id: Seq<char>| exists|k: int| 0 <= k < mem.len() && #[trigger] cs[mem[k] as int].stable_id@ == id);
        assert(s_all =~= s_rest.insert(cs[i as int].stable_id@)) by {
            assert forall|id: Seq<char>| s_all.contains(id) implies s_rest.insert(cs[i as int].stable_id@).contains(id) by {
                let k = choose|k: int| 0 <= k < mem.len() && #[trigger] cs[mem[k] as int].stable_id@ == id;
                if k < mem.len() - 1 {
                    assert(rest[k] == mem[k]);
                }
            }
            assert forall|id: Seq<char>| s_rest.contains(id) implies s_all.contains(id) by {
                let k = choose|k: int| 0 <= k < rest.len() && #[trigger] cs[rest[k] as int].stable_id@ == id;
                assert(rest[k] == mem[k]);
            }
            assert(cs[mem[mem.len() - 1] as int].stable_id@ == cs[i as int].stable_id@);
        }
        let r = first_pass(cs, rest, chosen, lo, hi, m);
        assert(first_pass(cs, mem, chosen, lo, hi, m).dom() =~= r.dom().insert(cs[i as int].stable_id@));
    }
}

proof fn lemma_spread_leftover(
    cs: Seq<ShareCandidate>,
    order: Seq<usize>,
    lo: u32,
    hi: u32,
    m: Map<Seq<char>, u32>,
    r: int,
)
    requires
        lo <= hi,
        within_bounds(m, lo, hi),
    ensures
        within_bounds(spread_leftover(cs, order, hi, m, r).0, lo, hi),
        spread_leftover(cs, order, hi, m, r).0.dom() == m.dom(),
    decreases order.len(),
{
    if order.len() > 0 {
        lemma_spread_leftover(cs, order.drop_last(), lo, hi, m, r);
        let (m1, r1) = spread_leftover(cs, order.drop_last(), hi, m, r);
        let id = cs[order.last() as int].stable_id@;
        if r1 > 0 && m1.contains_key(id) && m1[id] < hi {
            assert(m1.insert(id, (m1[id] + 1) as u32).dom() =~= m1.dom());
        }
    }
}

proof fn lemma_members_upto(cs: Seq<ShareCandidate>, g: u32, n: int)
    requires
        0 <= n <= cs.len(),
        cs.len() <= usize::MAX,
    ensures
        forall|k: int| 0 <= k < members_upto(cs, g, n).len() ==> {
            &&& 0 <= #[trigger] members_upto(cs, g, n)[k] < n
            &&& cs[members_upto(cs, g, n)[k] as int].selection_group == g
        },
        forall|i: int| 0 <= i < n && cs[i].selection_group == g ==> exists|k: int|
            0 <= k < members_upto(cs, g, n).len() && members_upto(cs, g, n)[k] == i,
    decreases n,
{
    if n > 0 {
        lemma_members_upto(cs, g, n - 1);
        let prev = members_upto(cs, g, n - 1);
        let cur = members_upto(cs, g, n);
        assert forall|k: int| 0 <= k < prev.len() implies cur[k] == prev[k] by {}
        assert forall|i: int| 0 <= i < n && cs[i].selection_group == g implies exists|k: int|
            0 <= k < cur.len() && cur[k] == i by {
            if i == n - 1 {
                assert(cur[cur.len() - 1] == i);
            } else {
                assert(0 <= i < n - 1 && cs[i].selection_group == g);
                let k = choose|k: int| 0 <= k < prev.len() && prev[k] == i;
                assert(cur[k] == i);
            }
        }
    }
}

/// The identities of the candidates in group `g`.
pub open spec fn group_identities(cs: Seq<ShareCandidate>, g: u32) -> Set<Seq<char>> {
    Set::new(|id: Seq<char>| exists|i: int| 0 <= i < cs.len() && cs[i].selection_group == g
        && #[trigger] cs[i].stable_id@ == id)
}

proof fn lemma_group_weights(cs: Seq<ShareCandidate>, g: u32, lo: u32, hi: u32, m: Map<Seq<char>, u32>)
    requires
        cs.len() <= usize::MAX,
        lo <= hi,
        within_bounds(m, lo, hi),
    ensures
        within_bounds(group_weights(cs, g, lo, hi, m), lo, hi),
        group_weights(cs, g, lo, hi, m).dom() == m.dom().union(group_identities(cs, g)),
{
    let mem = group_members(cs, g);
    let order = remainder_order(cs, mem);
    let r0 = group_leftover(cs, mem, hi);
    let taken = if r0 < order.len() {
        r0
    } else {
        order.len() as int
    };
    lemma_first_pass(cs, mem, order.take(taken), lo, hi, m);
    let m1 = first_pass(cs, mem, order.take(taken), lo, hi, m);
    lemma_spread_leftover(cs, order, lo, hi, m1, r0 - taken);
    lemma_members_upto(cs, g, cs.len() as int);
    let s = Set::new(|id: Seq<char>| exists|k: int| 0 <= k < mem.len() && #[trigger] cs[mem[k] as int].stable_id@ == id);
    assert(s =~= group_identities(cs, g)) by {
        assert forall|id: Seq<char>| s.contains(id) implies group_identities(cs, g).contains(id) by {
            let k = choose|k: int| 0 <= k < mem.len() && #[trigger] cs[mem[k] as int].stable_id@ == id;
            let i = mem[k] as int;
            assert(cs[i].stable_id@ == id);
        }
        assert forall|id: Seq<char>| group_identities(cs, g).contains(id) implies s.contains(id) by {
            let i = choose|i: int| 0 <= i < cs.len() && cs[i].selection_group == g
                && #[trigger] cs[i].stable_id@ == id;
            let k = choose|k: int| 0 <= k < mem.len() && mem[k] == i;
            assert(cs[mem[k] as int].stable_id@ == id);
        }
    }
}

proof fn lemma_smallest_group(cs: Seq<ShareCandidate>, lo: int)
    ensures
        match smallest_group_from(cs, lo) {
            None => forall|i: int| 0 <= i < cs.len() ==> cs[i].selection_group < lo,
            Some(g) => {
                &&& g >= lo
                &&& forall|i: int| 0 <= i < cs.len() && cs[i].selection_group >= lo ==> cs[i].selection_group >= g
            },
        },
    decreases cs.len(),
{
    if cs.len() > 0 {
        lemma_smallest_group(cs.drop_last(), lo);
        assert forall|i: int| 0 <= i < cs.len() - 1 implies cs.drop_last()[i] == cs[i] by {}
    }
}

proof fn lemma_weights_from(cs: Seq<ShareCandidate>, from: int, lo: u32, hi: u32, m: Map<Seq<char>, u32>)
    requires
        cs.len() <= usize::MAX,
        lo <= hi,
        0 <= from <= u32::MAX + 1,
        within_bounds(m, lo, hi),
    ensures
        within_bounds(weights_from(cs, from, lo, hi, m), lo, hi),
        weights_from(cs, from, lo, hi, m).dom() == m.dom().union(identities_from(cs, from)),
    decreases u32::MAX + 1 - from,
{
    lemma_smallest_group(cs, from);
    match smallest_group_from(cs, from) {
        None => {
            assert(identities_from(cs, from) =~= Set::empty()) by {
                assert forall|id: Seq<char>| !identities_from(cs, from).contains(id) by {
                    if identities_from(cs, from).contains(id) {
                        let i = choose|i: int| 0 <= i < cs.len() && cs[i].selection_group >= from
                            && #[trigger] cs[i].stable_id@ == id;
                    }
                }
            }
            assert(m.dom().union(identities_from(cs, from)) =~= m.dom());
        },
        Some(g) => {
            lemma_group_weights(cs, g, lo, hi, m);
            let m1 = group_weights(cs, g, lo, hi, m);
            lemma_weights_from(cs, g + 1, lo, hi, m1);
            assert(identities_from(cs, from) =~= group_identities(cs, g).union(identities_from(cs, g + 1))) by {
                assert forall|id: Seq<char>| identities_from(cs, from).contains(id) implies
                    group_identities(cs, g).union(identities_from(cs, g + 1)).contains(id) by {
                    let i = choose|i: int| 0 <= i < cs.len() && cs[i].selection_group >= from
                        && #[trigger] cs[i].stable_id@ == id;
                    if cs[i].selection_group == g {
                        assert(group_identities(cs, g).contains(id));
                    } else {
                        assert(identities_from(cs, g + 1).contains(id));
                    }
                }
                assert forall|id: Seq<char>| group_identities(cs, g).contains(id) implies
                    identities_from(cs, from).contains(id) by {
                    let i = choose|i: int| 0 <= i < cs.len() && cs[i].selection_group == g
                        && #[trigger] cs[i].stable_id@ == id;
                }
                assert forall|id: Seq<char>| identities_from(cs, g + 1).contains(id) implies
                    identities_from(cs, from).contains(id) by {
                    let i = choose|i: int| 0 <= i < cs.len() && cs[i].selection_group >= g + 1
                        && #[trigger] cs[i].stable_id@ == id;
                }
            }
            assert(weights_from(cs, g + 1, lo, hi, m1).dom() =~= m.dom().union(identities_from(cs, from)));
        },
    }
}

/// Every provider receives a weight, nothing else does, and every weight
/// lies within the configured bounds.
pub proof fn lemma_allocation_bounded_and_complete(cs: Seq<ShareCandidate>, lo: u32, hi: u32)
    requires
        cs.len() <= usize::MAX,
        lo <= hi,
    ensures
        allocation(cs, lo, hi).dom() == identities(cs),
        forall|id: Seq<char>| #[trigger] allocation(cs, lo, hi).contains_key(id) ==> lo <= allocation(cs, lo, hi)[id] <= hi,
{
    lemma_weights_from(cs, 0, lo, hi, Map::empty());
    assert(Map::<Seq<char>, u32>::empty().dom().union(identities_from(cs, 0)) =~= identities(cs));
}

/// With a zero change threshold every proposal is published.
pub proof fn lemma_zero_threshold_publishes_proposal(
    proposed: Map<Seq<char>, u32>,
    published: Map<Seq<char>, u32>,
)
    ensures
        settled(proposed, published, 0) == proposed,
{
    if !material_change(proposed, published, 0) {
        assert forall|id: Seq<char>| !proposed.contains_key(id) by {
            if proposed.contains_key(id) {
                assert(published.contains_key(id) ==> changed_materially(published[id], proposed[id], 0));
            }
        }
        assert forall|id: Seq<char>| !published.contains_key(id) by {
            if published.contains_key(id) {
                assert(!proposed.contains_key(id));
            }
        }
        assert(proposed =~= published);
    }
}

/// Proposing the same weights again publishes nothing new: settling is
/// idempotent.
pub proof fn lemma_settle_idempotent(
    proposed: Map<Seq<char>, u32>,
    published: Map<Seq<char>, u32>,
    percent: u32,
)
    ensures
        settled(proposed, settled(proposed, published, percent), percent) == settled(
            proposed,
            published,
            percent,
        ),
{
    if material_change(proposed, published, percent) {
        if percent == 0 {
            lemma_zero_threshold_publishes_proposal(proposed, proposed);
        } else {
            assert forall|id: Seq<char>| #[trigger] proposed.contains_key(id) implies !changed_materially(
                proposed[id],
                proposed[id],
                percent,
            ) by {
                assert(percent * (if proposed[id] == 0 { 1 } else { proposed[id] as int }) > 0)
                    by (nonlinear_arith)
                    requires
                        percent > 0,
                ;
            }
            assert(!material_change(proposed, proposed, percent));
        }
    }
}

/// Weights whose every change stays below the threshold, over the same
/// providers, leave the published weights in place.
pub proof fn lemma_small_changes_keep_published(
    proposed: Map<Seq<char>, u32>,
    published: Map<Seq<char>, u32>,
    percent: u32,
)
    requires
        proposed.dom() == published.dom(),
        forall|id: Seq<char>| #[trigger] proposed.contains_key(id) ==> !changed_materially(
            published[id],
            proposed[id],
            percent,
        ),
    ensures
        settled(proposed, published, percent) == published,
{
    assert forall|id: Seq<char>| #[trigger] published.contains_key(id) implies proposed.contains_key(id) by {
        assert(published.dom().contains(id));
    }
}

/// One materially changed provider suffices: when some proposed provider
/// is new, or its proposed weight differs from its published weight by at
/// least `percent` percent of the published weight (of one, for a published
/// weight of zero), the proposal is published whole, whatever the other
/// providers do.
pub proof fn lemma_one_material_change_publishes(
    proposed: Map<Seq<char>, u32>,
    published: Map<Seq<char>, u32>,
    percent: u32,
    id: Seq<char>,
)
    requires
        proposed.contains_key(id),
        !published.contains_key(id) || 100 * (if proposed[id] >= published[id] {
            proposed[id] - published[id]
        } else {
            published[id] - proposed[id]
        }) >= percent * (if published[id] == 0 {
            1
        } else {
            published[id] as int
        }),
    ensures
        settled(proposed, published, percent) == proposed,
{
    assert(proposed.contains_key(id) && (!published.contains_key(id) || changed_materially(
        published[id],
        proposed[id],
        percent,
    )));
}

/// A published provider that is no longer proposed makes the proposal
/// published.
pub proof fn lemma_dropped_provider_publishes(
    proposed: Map<Seq<char>, u32>,
    published: Map<Seq<char>, u32>,
    percent: u32,
    id: Seq<char>,
)
    requires
        published.contains_key(id),
        !proposed.contains_key(id),
    ensures
        settled(proposed, published, percent) == proposed,
{
}

/// Otherwise the published weights stay: when the same providers are
/// proposed and each proposed weight differs from its published weight by
/// less than `percent` percent of the published weight (of one, for zero),
/// the published weights are kept.
pub proof fn lemma_only_small_changes_keep_published(
    proposed: Map<Seq<char>, u32>,
    published: Map<Seq<char>, u32>,
    percent: u32,
)
    requires
        proposed.dom() == published.dom(),
        forall|id: Seq<char>| #[trigger] proposed.contains_key(id) ==> 100 * (if proposed[id] >= published[id] {
            proposed[id] - published[id]
        } else {
            published[id] - proposed[id]
        }) < percent * (if published[id] == 0 {
            1
        } else {
            published[id] as int
        }),
    ensures
        settled(proposed, published, percent) == published,
{
    assert forall|id: Seq<char>| #[trigger] published.contains_key(id) implies proposed.contains_key(id) by {
        assert(published.dom().contains(id));
    }
    assert forall|id: Seq<char>| #[trigger] proposed.contains_key(id) implies published.contains_key(id)
        && !changed_materially(published[id], proposed[id], percent) by {
        assert(proposed.dom().contains(id));
    }
}

/// The placement controls are accepted exactly when
/// `1 <= minimum <= maximum <= 1000`, the smoothing factor is a number in
/// `(0, 1]` (bit patterns `0 < bits <= 0x3FF0_0000_0000_0000`, that of 1.0)
/// and the availability floor is between 1 and 100 percent.
pub proof fn lemma_accepted_controls(config: PressureWeightedConfig)
    ensures
        config_valid(config) <==> {
            &&& 1 <= config.minimum_weight
            &&& config.minimum_weight <= config.maximum_weight
            &&& config.maximum_weight <= 1000
            &&& 0 < config.smoothing_factor_bits
            &&& config.smoothing_factor_bits <= 0x3FF0_0000_0000_0000u64
            &&& 1 <= config.availability_floor_percent
            &&& config.availability_floor_percent <= 100
        },
{
}

} // verus!
