//! Input order does not change pressure weights: for providers with
//! distinct identities, any reordering of the shares gives the same
//! weights.

use vstd::prelude::*;

use crate::order::{lemma_lex_lt_irreflexive, lemma_lex_lt_total, lemma_lex_lt_transitive, lex_lt};
use crate::placement::{
    allocation, bounded_share, first_pass, floor_total, group_leftover, group_members, group_weights,
    least_position, lemma_least_position_in_range, lemma_smallest_group_from, members_upto, precedes,
    remainder_order, smallest_group_from, spread_leftover, weights_from, ShareCandidate,
};

verus! {

/// No two candidates share an identity.
pub open spec fn distinct_ids(cs: Seq<ShareCandidate>) -> bool {
    forall|i: int, j: int| 0 <= i < j < cs.len() ==> (#[trigger] cs[i]).stable_id@ != (#[trigger] cs[j]).stable_id@
}

/// Candidate `a` receives a leftover unit before `b`: larger remainder
/// first, then smaller identity.
pub open spec fn value_precedes(a: ShareCandidate, b: ShareCandidate) -> bool {
    a.remainder_key > b.remainder_key || (a.remainder_key == b.remainder_key && lex_lt(
        a.stable_id@,
        b.stable_id@,
    ))
}

pub(crate) proof fn lemma_value_precedes_order(a: ShareCandidate, b: ShareCandidate, c: ShareCandidate)
    ensures
        !value_precedes(a, a),
        !(value_precedes(a, b) && value_precedes(b, a)),
        a.stable_id@ != b.stable_id@ ==> value_precedes(a, b) || value_precedes(b, a),
        value_precedes(a, b) && value_precedes(b, c) ==> value_precedes(a, c),
{
    lemma_lex_lt_irreflexive(a.stable_id@);
    lemma_lex_lt_total(a.stable_id@, b.stable_id@);
    if value_precedes(a, b) && value_precedes(b, c) {
        if a.remainder_key == b.remainder_key && b.remainder_key == c.remainder_key {
            lemma_lex_lt_transitive(a.stable_id@, b.stable_id@, c.stable_id@);
        }
    }
}

/// Between candidates of distinct identities, `precedes` is
/// `value_precedes` of their values.
pub(crate) proof fn lemma_precedes_by_value(cs: Seq<ShareCandidate>, i: int, j: int)
    requires
        distinct_ids(cs),
        0 <= i < cs.len(),
        0 <= j < cs.len(),
    ensures
        precedes(cs, i, j) == (i != j && value_precedes(cs[i], cs[j])),
{
    lemma_value_precedes_order(cs[i], cs[j], cs[j]);
    if i < j {
        assert(cs[i].stable_id@ != cs[j].stable_id@);
    } else if j < i {
        assert(cs[j].stable_id@ != cs[i].stable_id@);
    }
}

/// Positions name candidates and do not repeat.
pub open spec fn valid_positions(mem: Seq<usize>, n: int) -> bool {
    &&& forall|k: int| 0 <= k < mem.len() ==> (#[trigger] mem[k]) < n
    &&& mem.no_duplicates()
}

proof fn lemma_least_precedes_all(cs: Seq<ShareCandidate>, mem: Seq<usize>)
    requires
        distinct_ids(cs),
        valid_positions(mem, cs.len() as int),
        mem.len() > 0,
    ensures
        forall|q: int| 0 <= q < mem.len() && q != least_position(cs, mem) ==> precedes(
            cs,
            mem[least_position(cs, mem)] as int,
            #[trigger] mem[q] as int,
        ),
    decreases mem.len(),
{
    lemma_least_position_in_range(cs, mem);
    if mem.len() > 1 {
        let rest = mem.drop_last();
        assert(valid_positions(rest, cs.len() as int)) by {
            assert forall|k: int| 0 <= k < rest.len() implies (#[trigger] rest[k]) < cs.len() by {
                assert(rest[k] == mem[k]);
            }
        }
        lemma_least_precedes_all(cs, rest);
        lemma_least_position_in_range(cs, rest);
        let p0 = least_position(cs, rest);
        let last = mem.last() as int;
        let best = mem[p0] as int;
        assert(rest[p0] == mem[p0]);
        assert(best != last) by {
            assert(mem[p0] != mem[mem.len() - 1]);
        }
        lemma_precedes_by_value(cs, last, best);
        lemma_precedes_by_value(cs, best, last);
        lemma_value_precedes_order(cs[last], cs[best], cs[last]);
        if last < best {
            assert(cs[last].stable_id@ != cs[best].stable_id@);
        } else {
            assert(cs[best].stable_id@ != cs[last].stable_id@);
        }
        if precedes(cs, last, best) {
            assert forall|q: int| 0 <= q < mem.len() && q != mem.len() - 1 implies precedes(
                cs,
                last,
                #[trigger] mem[q] as int,
            ) by {
                assert(rest[q] == mem[q]);
                if q != p0 {
                    let other = mem[q] as int;
                    assert(precedes(cs, best, other));
                    lemma_precedes_by_value(cs, best, other);
                    lemma_precedes_by_value(cs, last, other);
                    lemma_value_precedes_order(cs[last], cs[best], cs[other]);
                    assert(mem[q] != mem[mem.len() - 1]);
                }
            }
        } else {
            assert forall|q: int| 0 <= q < mem.len() && q != p0 implies precedes(
                cs,
                best,
                #[trigger] mem[q] as int,
            ) by {
                if q < mem.len() - 1 {
                    assert(rest[q] == mem[q]);
                }
            }
        }
    }
}

/// The candidates at the given positions.
pub open spec fn values_at(cs: Seq<ShareCandidate>, mem: Seq<usize>) -> Seq<ShareCandidate> {
    mem.map_values(|i: usize| cs[i as int])
}

/// Each earlier item precedes each later one.
pub open spec fn value_sorted(vals: Seq<ShareCandidate>) -> bool {
    forall|a: int, b: int| 0 <= a < b < vals.len() ==> value_precedes(#[trigger] vals[a], #[trigger] vals[b])
}

/// No two items of the set share an identity.
pub open spec fn set_distinct_ids(set: Set<ShareCandidate>) -> bool {
    forall|c: ShareCandidate, d: ShareCandidate| set.contains(c) && set.contains(d) && c.stable_id@
        == d.stable_id@ ==> c == d
}

proof fn lemma_remove_positions(mem: Seq<usize>, p: int, n: int)
    requires
        valid_positions(mem, n),
        0 <= p < mem.len(),
    ensures
        valid_positions(mem.remove(p), n),
        mem.remove(p).to_set() == mem.to_set().remove(mem[p]),
        mem.remove(p).len() == mem.len() - 1,
{
    let r = mem.remove(p);
    mem.remove_ensures(p);
    assert forall|k1: int, k2: int| 0 <= k1 < r.len() && 0 <= k2 < r.len() && k1 != k2 implies r[k1] != r[k2] by {
        let q1 = if k1 < p { k1 } else { k1 + 1 };
        let q2 = if k2 < p { k2 } else { k2 + 1 };
        assert(mem[q1] == r[k1]);
        assert(mem[q2] == r[k2]);
    }
    assert(r.to_set() =~= mem.to_set().remove(mem[p])) by {
        assert forall|x: usize| r.to_set().contains(x) implies mem.to_set().remove(mem[p]).contains(x) by {
            let k = choose|k: int| 0 <= k < r.len() && r[k] == x;
            let q = if k < p { k } else { k + 1 };
            assert(mem[q] == r[k]);
            assert(q != p);
        }
        assert forall|x: usize| mem.to_set().remove(mem[p]).contains(x) implies r.to_set().contains(x) by {
            let q = choose|q: int| 0 <= q < mem.len() && mem[q] == x;
            if q < p {
                assert(r[q] == x);
            } else {
                assert(q != p);
                assert(r[q - 1] == x);
            }
        }
    }
}

/// The remainder order holds the same positions, each before every later
/// one.
pub(crate) proof fn lemma_remainder_order(cs: Seq<ShareCandidate>, mem: Seq<usize>)
    requires
        distinct_ids(cs),
        valid_positions(mem, cs.len() as int),
    ensures
        remainder_order(cs, mem).len() == mem.len(),
        remainder_order(cs, mem).to_set() == mem.to_set(),
        valid_positions(remainder_order(cs, mem), cs.len() as int),
        forall|a: int, b: int| 0 <= a < b < remainder_order(cs, mem).len() ==> precedes(
            cs,
            #[trigger] remainder_order(cs, mem)[a] as int,
            #[trigger] remainder_order(cs, mem)[b] as int,
        ),
    decreases mem.len(),
{
    if mem.len() == 0 {
        assert(remainder_order(cs, mem).to_set() =~= mem.to_set());
    } else {
        let p = least_position(cs, mem);
        lemma_least_position_in_range(cs, mem);
        lemma_least_precedes_all(cs, mem);
        let rest = mem.remove(p);
        lemma_remove_positions(mem, p, cs.len() as int);
        lemma_remainder_order(cs, rest);
        let tail = remainder_order(cs, rest);
        let all = remainder_order(cs, mem);
        let x = mem[p];
        assert(all == seq![x] + tail);
        assert forall|k: int| 0 <= k < tail.len() implies precedes(cs, x as int, #[trigger] tail[k] as int) by {
            assert(tail.to_set().contains(tail[k]));
            assert(rest.to_set().contains(tail[k]));
            assert(mem.to_set().remove(x).contains(tail[k]));
            let q = choose|q: int| 0 <= q < mem.len() && mem[q] == tail[k];
            assert(q != p);
        }
        assert forall|a: int, b: int| 0 <= a < b < all.len() implies precedes(
            cs,
            #[trigger] all[a] as int,
            #[trigger] all[b] as int,
        ) by {
            if a == 0 {
                assert(all[b] == tail[b - 1]);
            } else {
                assert(all[a] == tail[a - 1]);
                assert(all[b] == tail[b - 1]);
            }
        }
        assert(all.to_set() =~= mem.to_set()) by {
            assert forall|y: usize| all.to_set().contains(y) implies mem.to_set().contains(y) by {
                let k = choose|k: int| 0 <= k < all.len() && all[k] == y;
                if k > 0 {
                    assert(tail[k - 1] == y);
                    assert(tail.to_set().contains(y));
                }
            }
            assert forall|y: usize| mem.to_set().contains(y) implies all.to_set().contains(y) by {
                if y == x {
                    assert(all[0] == y);
                } else {
                    assert(rest.to_set().contains(y));
                    assert(tail.to_set().contains(y));
                    let k = choose|k: int| 0 <= k < tail.len() && tail[k] == y;
                    assert(all[k + 1] == y);
                }
            }
        }
        assert forall|k1: int, k2: int| 0 <= k1 < all.len() && 0 <= k2 < all.len() && k1 != k2 implies all[k1] != all[k2] by {
            if k1 > 0 && k2 > 0 {
                assert(all[k1] == tail[k1 - 1] && all[k2] == tail[k2 - 1]);
            } else if k1 == 0 {
                assert(all[k2] == tail[k2 - 1]);
                assert(tail.to_set().contains(tail[k2 - 1]));
                assert(!rest.to_set().contains(x));
            } else {
                assert(all[k1] == tail[k1 - 1]);
                assert(tail.to_set().contains(tail[k1 - 1]));
                assert(!rest.to_set().contains(x));
            }
        }
        assert forall|k: int| 0 <= k < all.len() implies (#[trigger] all[k]) < cs.len() by {
            if k > 0 {
                assert(all[k] == tail[k - 1]);
            }
        }
    }
}

/// In value order, the candidates of `mem` come out as the remainder order
/// lists them.
proof fn lemma_remainder_values(cs: Seq<ShareCandidate>, mem: Seq<usize>)
    requires
        distinct_ids(cs),
        valid_positions(mem, cs.len() as int),
    ensures
        value_sorted(values_at(cs, remainder_order(cs, mem))),
        values_at(cs, remainder_order(cs, mem)).to_set() == values_at(cs, mem).to_set(),
        values_at(cs, remainder_order(cs, mem)).len() == mem.len(),
{
    lemma_remainder_order(cs, mem);
    let r = remainder_order(cs, mem);
    let vr = values_at(cs, r);
    let vm = values_at(cs, mem);
    assert forall|a: int, b: int| 0 <= a < b < vr.len() implies value_precedes(#[trigger] vr[a], #[trigger] vr[b]) by {
        assert(precedes(cs, r[a] as int, r[b] as int));
        lemma_precedes_by_value(cs, r[a] as int, r[b] as int);
    }
    assert(vr.to_set() =~= vm.to_set()) by {
        assert forall|c: ShareCandidate| vr.to_set().contains(c) implies vm.to_set().contains(c) by {
            let k = choose|k: int| 0 <= k < vr.len() && vr[k] == c;
            assert(r.to_set().contains(r[k]));
            assert(mem.to_set().contains(r[k]));
            let j = choose|j: int| 0 <= j < mem.len() && mem[j] == r[k];
            assert(vm[j] == c);
        }
        assert forall|c: ShareCandidate| vm.to_set().contains(c) implies vr.to_set().contains(c) by {
            let j = choose|j: int| 0 <= j < vm.len() && vm[j] == c;
            assert(mem.to_set().contains(mem[j]));
            assert(r.to_set().contains(mem[j]));
            let k = choose|k: int| 0 <= k < r.len() && r[k] == mem[j];
            assert(vr[k] == c);
        }
    }
}

proof fn lemma_value_sorted_prefix(a: Seq<ShareCandidate>, b: Seq<ShareCandidate>, i: int)
    requires
        value_sorted(a),
        value_sorted(b),
        a.to_set() == b.to_set(),
        set_distinct_ids(a.to_set()),
        0 <= i < a.len(),
        i < b.len(),
    ensures
        forall|j: int| 0 <= j <= i ==> a[j] == b[j],
    decreases i,
{
    if i > 0 {
        lemma_value_sorted_prefix(a, b, i - 1);
    }
    assert(a.to_set().contains(a[i]));
    let k = choose|k: int| 0 <= k < b.len() && b[k] == a[i];
    assert(b.to_set().contains(b[i]));
    let m = choose|m: int| 0 <= m < a.len() && a[m] == b[i];
    lemma_value_precedes_order(a[i], b[i], a[i]);
    lemma_value_precedes_order(a[i], a[i], a[i]);
    lemma_value_precedes_order(b[i], b[i], b[i]);
    if k < i {
        assert(b[k] == a[k]);
        assert(value_precedes(a[k], a[i]));
    } else if k > i {
        assert(value_precedes(b[i], b[k]));
        if m < i {
            assert(a[m] == b[m]);
            assert(value_precedes(b[m], b[i]));
        } else if m > i {
            assert(value_precedes(a[i], a[m]));
            if a[i].stable_id@ == b[i].stable_id@ {
                assert(a.to_set().contains(a[i]) && a.to_set().contains(b[i]));
            }
        }
    }
}

/// Two value-sorted sequences of the same candidates, no two of which share
/// an identity, are equal.
proof fn lemma_value_sorted_unique(a: Seq<ShareCandidate>, b: Seq<ShareCandidate>)
    requires
        value_sorted(a),
        value_sorted(b),
        a.to_set() == b.to_set(),
        set_distinct_ids(a.to_set()),
    ensures
        a == b,
{
    assert forall|i: int, j: int| 0 <= i < a.len() && 0 <= j < a.len() && i != j implies a[i] != a[j] by {
        lemma_value_precedes_order(a[i], a[j], a[i]);
        if i < j {
            assert(value_precedes(a[i], a[j]));
        } else {
            assert(value_precedes(a[j], a[i]));
        }
    }
    assert forall|i: int, j: int| 0 <= i < b.len() && 0 <= j < b.len() && i != j implies b[i] != b[j] by {
        lemma_value_precedes_order(b[i], b[j], b[i]);
        if i < j {
            assert(value_precedes(b[i], b[j]));
        } else {
            assert(value_precedes(b[j], b[i]));
        }
    }
    a.unique_seq_to_set();
    b.unique_seq_to_set();
    if a.len() > 0 {
        lemma_value_sorted_prefix(a, b, a.len() - 1);
    }
    assert(a =~= b);
}

pub(crate) proof fn lemma_members_increasing(cs: Seq<ShareCandidate>, g: u32, n: int)
    requires
        0 <= n <= cs.len(),
        cs.len() <= usize::MAX,
    ensures
        forall|a: int, b: int| 0 <= a < b < members_upto(cs, g, n).len() ==> #[trigger] members_upto(cs, g, n)[a]
            < #[trigger] members_upto(cs, g, n)[b],
        forall|k: int| 0 <= k < members_upto(cs, g, n).len() ==> {
            &&& (#[trigger] members_upto(cs, g, n)[k]) < n
            &&& cs[members_upto(cs, g, n)[k] as int].selection_group == g
        },
        forall|i: int| 0 <= i < n && cs[i].selection_group == g ==> exists|k: int|
            0 <= k < members_upto(cs, g, n).len() && members_upto(cs, g, n)[k] == i,
    decreases n,
{
    if n > 0 {
        lemma_members_increasing(cs, g, n - 1);
        let prev = members_upto(cs, g, n - 1);
        let cur = members_upto(cs, g, n);
        assert forall|k: int| 0 <= k < prev.len() implies cur[k] == prev[k] by {}
        assert forall|i: int| 0 <= i < n && cs[i].selection_group == g implies exists|k: int|
            0 <= k < cur.len() && cur[k] == i by {
            if i == n - 1 {
                assert(cur[cur.len() - 1] == i);
            } else {
                assert(0 <= i < n - 1 && cs[i].selection_group == g);
                let k = choose|k: int| 0 <= k < prev.len() && prev[k] == i;
                assert(cur[k] == i);
            }
        }
    }
}

/// The candidates of `set` in group `g`.
pub open spec fn in_group(set: Set<ShareCandidate>, g: u32) -> Set<ShareCandidate> {
    set.filter(|c: ShareCandidate| c.selection_group == g)
}

/// The members of group `g` are valid positions, and their candidates are
/// exactly the candidates of the group.
pub(crate) proof fn lemma_group_values(cs: Seq<ShareCandidate>, g: u32)
    requires
        cs.len() <= usize::MAX,
        distinct_ids(cs),
    ensures
        valid_positions(crate::placement::group_members(cs, g), cs.len() as int),
        values_at(cs, crate::placement::group_members(cs, g)).to_set() == in_group(cs.to_set(), g),
        set_distinct_ids(in_group(cs.to_set(), g)),
{
    let mem = crate::placement::group_members(cs, g);
    lemma_members_increasing(cs, g, cs.len() as int);
    assert forall|a: int, b: int| 0 <= a < mem.len() && 0 <= b < mem.len() && a != b implies mem[a] != mem[b] by {
        if a < b {
            assert(mem[a] < mem[b]);
        } else {
            assert(mem[b] < mem[a]);
        }
    }
    let vm = values_at(cs, mem);
    assert(vm.to_set() =~= in_group(cs.to_set(), g)) by {
        assert forall|c: ShareCandidate| vm.to_set().contains(c) implies in_group(cs.to_set(), g).contains(c) by {
            let k = choose|k: int| 0 <= k < vm.len() && vm[k] == c;
            assert(cs[mem[k] as int] == c);
        }
        assert forall|c: ShareCandidate| in_group(cs.to_set(), g).contains(c) implies vm.to_set().contains(c) by {
            let i = choose|i: int| 0 <= i < cs.len() && cs[i] == c;
            let k = choose|k: int| 0 <= k < mem.len() && mem[k] == i;
            assert(vm[k] == c);
        }
    }
    assert forall|c: ShareCandidate, d: ShareCandidate| in_group(cs.to_set(), g).contains(c) && in_group(
        cs.to_set(),
        g,
    ).contains(d) && c.stable_id@ == d.stable_id@ implies c == d by {
        let i = choose|i: int| 0 <= i < cs.len() && cs[i] == c;
        let j = choose|j: int| 0 <= j < cs.len() && cs[j] == d;
        if i < j {
            assert(cs[i].stable_id@ != cs[j].stable_id@);
        } else if j < i {
            assert(cs[j].stable_id@ != cs[i].stable_id@);
        }
    }
}

/// Sum of the whole units of `vals`.
pub open spec fn value_floor_total(vals: Seq<ShareCandidate>) -> int
    decreases vals.len(),
{
    if vals.len() == 0 {
        0
    } else {
        value_floor_total(vals.drop_last()) + vals.last().floor_share
    }
}

proof fn lemma_floor_total_values(cs: Seq<ShareCandidate>, mem: Seq<usize>)
    requires
        forall|k: int| 0 <= k < mem.len() ==> (#[trigger] mem[k]) < cs.len(),
    ensures
        floor_total(cs, mem) == value_floor_total(values_at(cs, mem)),
    decreases mem.len(),
{
    if mem.len() > 0 {
        lemma_floor_total_values(cs, mem.drop_last());
        assert(values_at(cs, mem).drop_last() =~= values_at(cs, mem.drop_last()));
    }
}

proof fn lemma_value_floor_total_remove(vals: Seq<ShareCandidate>, k: int)
    requires
        0 <= k < vals.len(),
    ensures
        value_floor_total(vals) == value_floor_total(vals.remove(k)) + vals[k].floor_share,
    decreases vals.len(),
{
    if k < vals.len() - 1 {
        lemma_value_floor_total_remove(vals.drop_last(), k);
        assert(vals.remove(k).drop_last() =~= vals.drop_last().remove(k));
        assert(vals.remove(k).last() == vals.last());
    } else {
        assert(vals.remove(k) =~= vals.drop_last());
    }
}

proof fn lemma_value_floor_total_same_set(a: Seq<ShareCandidate>, b: Seq<ShareCandidate>)
    requires
        a.no_duplicates(),
        b.no_duplicates(),
        a.to_set() == b.to_set(),
    ensures
        value_floor_total(a) == value_floor_total(b),
    decreases a.len(),
{
    a.unique_seq_to_set();
    b.unique_seq_to_set();
    if a.len() > 0 {
        let x = a.last();
        assert(a.to_set().contains(x));
        let k = choose|k: int| 0 <= k < b.len() && b[k] == x;
        let a1 = a.drop_last();
        let b1 = b.remove(k);
        b.remove_ensures(k);
        assert(a1.no_duplicates());
        assert(b1.no_duplicates()) by {
            assert forall|i: int, j: int| 0 <= i < b1.len() && 0 <= j < b1.len() && i != j implies b1[i] != b1[j] by {
                let qi = if i < k { i } else { i + 1 };
                let qj = if j < k { j } else { j + 1 };
                assert(b[qi] == b1[i] && b[qj] == b1[j]);
            }
        }
        assert(a1.to_set() =~= b1.to_set()) by {
            assert forall|c: ShareCandidate| a1.to_set().contains(c) implies b1.to_set().contains(c) by {
                let i = choose|i: int| 0 <= i < a1.len() && a1[i] == c;
                assert(a[i] == c);
                assert(c != x);
                assert(a.to_set().contains(c));
                assert(b.to_set().contains(c));
                let j = choose|j: int| 0 <= j < b.len() && b[j] == c;
                assert(j != k);
                if j < k {
                    assert(b1[j] == c);
                } else {
                    assert(b1[j - 1] == c);
                }
            }
            assert forall|c: ShareCandidate| b1.to_set().contains(c) implies a1.to_set().contains(c) by {
                let j = choose|j: int| 0 <= j < b1.len() && b1[j] == c;
                let q = if j < k { j } else { j + 1 };
                assert(b[q] == c);
                assert(c != x);
                assert(b.to_set().contains(c));
                let i = choose|i: int| 0 <= i < a.len() && a[i] == c;
                assert(i != a.len() - 1);
                assert(a1[i] == c);
            }
        }
        lemma_value_floor_total_same_set(a1, b1);
        lemma_value_floor_total_remove(b, k);
    } else {
        assert(b.len() == 0);
    }
}

/// The first pass over candidate values.
pub open spec fn first_values(
    vals: Seq<ShareCandidate>,
    chosen: Seq<ShareCandidate>,
    lo: u32,
    hi: u32,
    m: Map<Seq<char>, u32>,
) -> Map<Seq<char>, u32>
    decreases vals.len(),
{
    if vals.len() == 0 {
        m
    } else {
        let c = vals.last();
        first_values(vals.drop_last(), chosen, lo, hi, m).insert(
            c.stable_id@,
            bounded_share(c.floor_share, chosen.contains(c), lo, hi),
        )
    }
}

pub(crate) proof fn lemma_first_pass_values(
    cs: Seq<ShareCandidate>,
    mem: Seq<usize>,
    chosen: Seq<usize>,
    lo: u32,
    hi: u32,
    m: Map<Seq<char>, u32>,
)
    requires
        distinct_ids(cs),
        forall|k: int| 0 <= k < mem.len() ==> (#[trigger] mem[k]) < cs.len(),
        forall|k: int| 0 <= k < chosen.len() ==> (#[trigger] chosen[k]) < cs.len(),
    ensures
        first_pass(cs, mem, chosen, lo, hi, m) == first_values(values_at(cs, mem), values_at(cs, chosen), lo, hi, m),
    decreases mem.len(),
{
    if mem.len() > 0 {
        lemma_first_pass_values(cs, mem.drop_last(), chosen, lo, hi, m);
        assert(values_at(cs, mem).drop_last() =~= values_at(cs, mem.drop_last()));
        let i = mem.last();
        let vc = values_at(cs, chosen);
        assert(chosen.contains(i) == vc.contains(cs[i as int])) by {
            if chosen.contains(i) {
                let k = choose|k: int| 0 <= k < chosen.len() && chosen[k] == i;
                assert(vc[k] == cs[i as int]);
            }
            if vc.contains(cs[i as int]) {
                let k = choose|k: int| 0 <= k < vc.len() && vc[k] == cs[i as int];
                let j = chosen[k] as int;
                if j < i {
                    assert(cs[j].stable_id@ != cs[i as int].stable_id@);
                } else if i < j {
                    assert(cs[i as int].stable_id@ != cs[j].stable_id@);
                }
            }
        }
    }
}

/// The items of `vals` have pairwise distinct identities.
pub open spec fn values_distinct(vals: Seq<ShareCandidate>) -> bool {
    forall|i: int, j: int| 0 <= i < vals.len() && 0 <= j < vals.len() && i != j ==> (#[trigger] vals[i]).stable_id@
        != (#[trigger] vals[j]).stable_id@
}

pub(crate) proof fn lemma_first_values_at(
    vals: Seq<ShareCandidate>,
    chosen: Seq<ShareCandidate>,
    lo: u32,
    hi: u32,
    m: Map<Seq<char>, u32>,
)
    requires
        values_distinct(vals),
    ensures
        forall|k: Seq<char>| #[trigger] first_values(vals, chosen, lo, hi, m).contains_key(k) == (m.contains_key(k)
            || exists|j: int| 0 <= j < vals.len() && vals[j].stable_id@ == k),
        forall|j: int| 0 <= j < vals.len() ==> first_values(vals, chosen, lo, hi, m)[(#[trigger] vals[j]).stable_id@]
            == bounded_share(vals[j].floor_share, chosen.contains(vals[j]), lo, hi),
        forall|k: Seq<char>| (forall|j: int| 0 <= j < vals.len() ==> (#[trigger] vals[j]).stable_id@ != k) ==> #[trigger] first_values(
            vals,
            chosen,
            lo,
            hi,
            m,
        )[k] == m[k],
    decreases vals.len(),
{
    if vals.len() > 0 {
        let rest = vals.drop_last();
        assert(values_distinct(rest)) by {
            assert forall|i: int, j: int| 0 <= i < rest.len() && 0 <= j < rest.len() && i != j implies (#[trigger] rest[i]).stable_id@
                != (#[trigger] rest[j]).stable_id@ by {
                assert(rest[i] == vals[i] && rest[j] == vals[j]);
            }
        }
        lemma_first_values_at(rest, chosen, lo, hi, m);
        let last = vals.last();
        let r = first_values(rest, chosen, lo, hi, m);
        assert forall|k: Seq<char>| #[trigger] first_values(vals, chosen, lo, hi, m).contains_key(k) == (m.contains_key(k)
            || exists|j: int| 0 <= j < vals.len() && vals[j].stable_id@ == k) by {
            if exists|j: int| 0 <= j < vals.len() && vals[j].stable_id@ == k {
                let j = choose|j: int| 0 <= j < vals.len() && vals[j].stable_id@ == k;
                if j < vals.len() - 1 {
                    assert(rest[j] == vals[j]);
                }
            }
            if exists|j: int| 0 <= j < rest.len() && rest[j].stable_id@ == k {
                let j = choose|j: int| 0 <= j < rest.len() && rest[j].stable_id@ == k;
                assert(vals[j] == rest[j]);
            }
        }
        assert forall|j: int| 0 <= j < vals.len() implies first_values(vals, chosen, lo, hi, m)[(#[trigger] vals[j]).stable_id@]
            == bounded_share(vals[j].floor_share, chosen.contains(vals[j]), lo, hi) by {
            if j < vals.len() - 1 {
                assert(rest[j] == vals[j]);
                assert(vals[j].stable_id@ != vals[vals.len() - 1].stable_id@);
            }
        }
        assert forall|k: Seq<char>| (forall|j: int| 0 <= j < vals.len() ==> (#[trigger] vals[j]).stable_id@ != k) implies #[trigger] first_values(
            vals,
            chosen,
            lo,
            hi,
            m,
        )[k] == m[k] by {
            assert(vals[vals.len() - 1].stable_id@ != k);
            assert forall|j: int| 0 <= j < rest.len() implies (#[trigger] rest[j]).stable_id@ != k by {
                assert(rest[j] == vals[j]);
            }
        }
    }
}

proof fn lemma_first_values_same_set(
    a: Seq<ShareCandidate>,
    b: Seq<ShareCandidate>,
    chosen: Seq<ShareCandidate>,
    lo: u32,
    hi: u32,
    m: Map<Seq<char>, u32>,
)
    requires
        values_distinct(a),
        values_distinct(b),
        a.to_set() == b.to_set(),
    ensures
        first_values(a, chosen, lo, hi, m) == first_values(b, chosen, lo, hi, m),
{
    lemma_first_values_at(a, chosen, lo, hi, m);
    lemma_first_values_at(b, chosen, lo, hi, m);
    let fa = first_values(a, chosen, lo, hi, m);
    let fb = first_values(b, chosen, lo, hi, m);
    assert forall|k: Seq<char>| fa.contains_key(k) == fb.contains_key(k) by {
        if exists|j: int| 0 <= j < a.len() && a[j].stable_id@ == k {
            let j = choose|j: int| 0 <= j < a.len() && a[j].stable_id@ == k;
            assert(b.to_set().contains(a[j]));
            let i = choose|i: int| 0 <= i < b.len() && b[i] == a[j];
            assert(b[i].stable_id@ == k);
        }
        if exists|j: int| 0 <= j < b.len() && b[j].stable_id@ == k {
            let j = choose|j: int| 0 <= j < b.len() && b[j].stable_id@ == k;
            assert(a.to_set().contains(b[j]));
            let i = choose|i: int| 0 <= i < a.len() && a[i] == b[j];
            assert(a[i].stable_id@ == k);
        }
    }
    assert forall|k: Seq<char>| fa.contains_key(k) implies fa[k] == fb[k] by {
        if exists|j: int| 0 <= j < a.len() && a[j].stable_id@ == k {
            let j = choose|j: int| 0 <= j < a.len() && a[j].stable_id@ == k;
            assert(b.to_set().contains(a[j]));
            let i = choose|i: int| 0 <= i < b.len() && b[i] == a[j];
            assert(fa[a[j].stable_id@] == fb[b[i].stable_id@]);
        } else if exists|j: int| 0 <= j < b.len() && b[j].stable_id@ == k {
            let j = choose|j: int| 0 <= j < b.len() && b[j].stable_id@ == k;
            assert(a.to_set().contains(b[j]));
            let i = choose|i: int| 0 <= i < a.len() && a[i] == b[j];
            assert(a[i].stable_id@ == k);
        } else {
            assert(fa[k] == m[k]);
            assert(fb[k] == m[k]);
        }
    }
    assert(fa =~= fb);
}

/// The leftover pass over candidate values.
pub open spec fn spread_values(
    vals: Seq<ShareCandidate>,
    hi: u32,
    m: Map<Seq<char>, u32>,
    r: int,
) -> (Map<Seq<char>, u32>, int)
    decreases vals.len(),
{
    if vals.len() == 0 {
        (m, r)
    } else {
        let (m1, r1) = spread_values(vals.drop_last(), hi, m, r);
        let id = vals.last().stable_id@;
        if r1 > 0 && m1.contains_key(id) && m1[id] < hi {
            (m1.insert(id, (m1[id] + 1) as u32), r1 - 1)
        } else {
            (m1, r1)
        }
    }
}

proof fn lemma_spread_values(cs: Seq<ShareCandidate>, order: Seq<usize>, hi: u32, m: Map<Seq<char>, u32>, r: int)
    requires
        forall|k: int| 0 <= k < order.len() ==> (#[trigger] order[k]) < cs.len(),
    ensures
        spread_leftover(cs, order, hi, m, r) == spread_values(values_at(cs, order), hi, m, r),
    decreases order.len(),
{
    if order.len() > 0 {
        lemma_spread_values(cs, order.drop_last(), hi, m, r);
        assert(values_at(cs, order).drop_last() =~= values_at(cs, order.drop_last()));
    }
}

pub(crate) proof fn lemma_values_distinct(cs: Seq<ShareCandidate>, mem: Seq<usize>)
    requires
        distinct_ids(cs),
        valid_positions(mem, cs.len() as int),
    ensures
        values_distinct(values_at(cs, mem)),
        values_at(cs, mem).no_duplicates(),
{
    let v = values_at(cs, mem);
    assert forall|i: int, j: int| 0 <= i < v.len() && 0 <= j < v.len() && i != j implies (#[trigger] v[i]).stable_id@
        != (#[trigger] v[j]).stable_id@ by {
        let a = mem[i] as int;
        let b = mem[j] as int;
        assert(a != b);
        if a < b {
            assert(cs[a].stable_id@ != cs[b].stable_id@);
        } else {
            assert(cs[b].stable_id@ != cs[a].stable_id@);
        }
    }
}

/// The weights of a group depend on its set of candidates only.
proof fn lemma_group_weights_same_set(
    cs1: Seq<ShareCandidate>,
    cs2: Seq<ShareCandidate>,
    g: u32,
    lo: u32,
    hi: u32,
    m: Map<Seq<char>, u32>,
)
    requires
        cs1.len() <= usize::MAX,
        cs2.len() <= usize::MAX,
        distinct_ids(cs1),
        distinct_ids(cs2),
        in_group(cs1.to_set(), g) == in_group(cs2.to_set(), g),
    ensures
        group_weights(cs1, g, lo, hi, m) == group_weights(cs2, g, lo, hi, m),
{
    let mem1 = group_members(cs1, g);
    let mem2 = group_members(cs2, g);
    lemma_group_values(cs1, g);
    lemma_group_values(cs2, g);
    let order1 = remainder_order(cs1, mem1);
    let order2 = remainder_order(cs2, mem2);
    lemma_remainder_order(cs1, mem1);
    lemma_remainder_order(cs2, mem2);
    lemma_remainder_values(cs1, mem1);
    lemma_remainder_values(cs2, mem2);
    let v1 = values_at(cs1, order1);
    let v2 = values_at(cs2, order2);
    lemma_value_sorted_unique(v1, v2);
    lemma_values_distinct(cs1, mem1);
    lemma_values_distinct(cs2, mem2);
    lemma_floor_total_values(cs1, mem1);
    lemma_floor_total_values(cs2, mem2);
    lemma_value_floor_total_same_set(values_at(cs1, mem1), values_at(cs2, mem2));
    assert(group_leftover(cs1, mem1, hi) == group_leftover(cs2, mem2, hi));
    let r0 = group_leftover(cs1, mem1, hi);
    assert(order1.len() == order2.len());
    let taken = if r0 < order1.len() {
        r0
    } else {
        order1.len() as int
    };
    lemma_first_pass_values(cs1, mem1, order1.take(taken), lo, hi, m);
    lemma_first_pass_values(cs2, mem2, order2.take(taken), lo, hi, m);
    assert(values_at(cs1, order1.take(taken)) =~= v1.take(taken));
    assert(values_at(cs2, order2.take(taken)) =~= v2.take(taken));
    lemma_first_values_same_set(values_at(cs1, mem1), values_at(cs2, mem2), v1.take(taken), lo, hi, m);
    let m1 = first_pass(cs1, mem1, order1.take(taken), lo, hi, m);
    assert(m1 == first_pass(cs2, mem2, order2.take(taken), lo, hi, m));
    lemma_spread_values(cs1, order1, hi, m1, r0 - taken);
    lemma_spread_values(cs2, order2, hi, m1, r0 - taken);
}

proof fn lemma_smallest_group_characterized(cs: Seq<ShareCandidate>, lo: int)
    ensures
        match smallest_group_from(cs, lo) {
            None => forall|i: int| 0 <= i < cs.len() ==> cs[i].selection_group < lo,
            Some(g) => {
                &&& g >= lo
                &&& exists|i: int| 0 <= i < cs.len() && cs[i].selection_group == g
                &&& forall|i: int| 0 <= i < cs.len() && cs[i].selection_group >= lo ==> cs[i].selection_group >= g
            },
        },
    decreases cs.len(),
{
    if cs.len() > 0 {
        let rest = cs.drop_last();
        lemma_smallest_group_characterized(rest, lo);
        assert forall|i: int| 0 <= i < cs.len() - 1 implies rest[i] == cs[i] by {}
        match smallest_group_from(rest, lo) {
            Some(h) => {
                let i = choose|i: int| 0 <= i < rest.len() && rest[i].selection_group == h;
                assert(cs[i].selection_group == h);
            },
            None => {},
        }
        if smallest_group_from(cs, lo) == Some(cs.last().selection_group) {
            assert(cs[cs.len() - 1].selection_group == cs.last().selection_group);
        }
    }
}

proof fn lemma_smallest_group_same_set(cs1: Seq<ShareCandidate>, cs2: Seq<ShareCandidate>, lo: int)
    requires
        cs1.to_set() == cs2.to_set(),
    ensures
        smallest_group_from(cs1, lo) == smallest_group_from(cs2, lo),
{
    lemma_smallest_group_characterized(cs1, lo);
    lemma_smallest_group_characterized(cs2, lo);
    match (smallest_group_from(cs1, lo), smallest_group_from(cs2, lo)) {
        (Some(g1), Some(g2)) => {
            let i = choose|i: int| 0 <= i < cs1.len() && cs1[i].selection_group == g1;
            assert(cs1.to_set().contains(cs1[i]));
            let j = choose|j: int| 0 <= j < cs2.len() && cs2[j] == cs1[i];
            let k = choose|k: int| 0 <= k < cs2.len() && cs2[k].selection_group == g2;
            assert(cs2.to_set().contains(cs2[k]));
            let l = choose|l: int| 0 <= l < cs1.len() && cs1[l] == cs2[k];
        },
        (Some(g1), None) => {
            let i = choose|i: int| 0 <= i < cs1.len() && cs1[i].selection_group == g1;
            assert(cs1.to_set().contains(cs1[i]));
            let j = choose|j: int| 0 <= j < cs2.len() && cs2[j] == cs1[i];
        },
        (None, Some(g2)) => {
            let k = choose|k: int| 0 <= k < cs2.len() && cs2[k].selection_group == g2;
            assert(cs2.to_set().contains(cs2[k]));
            let l = choose|l: int| 0 <= l < cs1.len() && cs1[l] == cs2[k];
        },
        (None, None) => {},
    }
}

proof fn lemma_weights_from_same_set(
    cs1: Seq<ShareCandidate>,
    cs2: Seq<ShareCandidate>,
    from: int,
    lo: u32,
    hi: u32,
    m: Map<Seq<char>, u32>,
)
    requires
        cs1.len() <= usize::MAX,
        cs2.len() <= usize::MAX,
        distinct_ids(cs1),
        distinct_ids(cs2),
        cs1.to_set() == cs2.to_set(),
    ensures
        weights_from(cs1, from, lo, hi, m) == weights_from(cs2, from, lo, hi, m),
    decreases u32::MAX + 1 - from,
{
    lemma_smallest_group_same_set(cs1, cs2, from);
    match smallest_group_from(cs1, from) {
        None => {},
        Some(g) => {
            lemma_smallest_group_from(cs1, from);
            assert(in_group(cs1.to_set(), g) == in_group(cs2.to_set(), g));
            lemma_group_weights_same_set(cs1, cs2, g, lo, hi, m);
            lemma_weights_from_same_set(cs1, cs2, g + 1, lo, hi, group_weights(cs1, g, lo, hi, m));
        },
    }
}

/// Input order does not change the weights: two lists of shares that hold
/// the same candidates, no two of which share an identity, give the same
/// weights.
pub proof fn lemma_input_order_does_not_change_weights(cs1: Seq<ShareCandidate>, cs2: Seq<ShareCandidate>, lo: u32, hi: u32)
    requires
        cs1.len() <= usize::MAX,
        cs2.len() <= usize::MAX,
        distinct_ids(cs1),
        distinct_ids(cs2),
        cs1.to_set() == cs2.to_set(),
    ensures
        allocation(cs1, lo, hi) == allocation(cs2, lo, hi),
{
    lemma_weights_from_same_set(cs1, cs2, 0, lo, hi, Map::empty());
}

/// The identities of `vals`.
pub open spec fn value_ids(vals: Seq<ShareCandidate>) -> Set<Seq<char>> {
    Set::new(|k: Seq<char>| exists|j: int| 0 <= j < vals.len() && (#[trigger] vals[j]).stable_id@ == k)
}

/// `a` and `b` agree on the keys of `keys`.
pub open spec fn agree_on(a: Map<Seq<char>, u32>, b: Map<Seq<char>, u32>, keys: Set<Seq<char>>) -> bool {
    forall|k: Seq<char>| #[trigger] keys.contains(k) ==> a.contains_key(k) == b.contains_key(k) && (a.contains_key(k) ==> a[k] == b[k])
}

proof fn lemma_spread_local(vals: Seq<ShareCandidate>, hi: u32, ma: Map<Seq<char>, u32>, mb: Map<Seq<char>, u32>, r: int)
    requires
        agree_on(ma, mb, value_ids(vals)),
    ensures
        spread_values(vals, hi, ma, r).1 == spread_values(vals, hi, mb, r).1,
        agree_on(spread_values(vals, hi, ma, r).0, spread_values(vals, hi, mb, r).0, value_ids(vals)),
        forall|k: Seq<char>| !value_ids(vals).contains(k) ==> (#[trigger] spread_values(vals, hi, ma, r).0.contains_key(k)
            == ma.contains_key(k) && (ma.contains_key(k) ==> spread_values(vals, hi, ma, r).0[k] == ma[k])),
        forall|k: Seq<char>| !value_ids(vals).contains(k) ==> (#[trigger] spread_values(vals, hi, mb, r).0.contains_key(k)
            == mb.contains_key(k) && (mb.contains_key(k) ==> spread_values(vals, hi, mb, r).0[k] == mb[k])),
    decreases vals.len(),
{
    if vals.len() > 0 {
        let rest = vals.drop_last();
        assert forall|k: Seq<char>| #[trigger] value_ids(rest).contains(k) implies value_ids(vals).contains(k) by {
            let j = choose|j: int| 0 <= j < rest.len() && (#[trigger] rest[j]).stable_id@ == k;
            assert(vals[j] == rest[j]);
        }
        lemma_spread_local(rest, hi, ma, mb, r);
        let id = vals.last().stable_id@;
        assert(value_ids(vals).contains(id)) by {
            assert(vals[vals.len() - 1].stable_id@ == id);
        }
        assert forall|k: Seq<char>| #[trigger] value_ids(vals).contains(k) && k != id implies value_ids(rest).contains(k) by {
            let j = choose|j: int| 0 <= j < vals.len() && (#[trigger] vals[j]).stable_id@ == k;
            assert(j != vals.len() - 1);
            assert(rest[j] == vals[j]);
        }
        assert forall|k: Seq<char>| !value_ids(vals).contains(k) implies !value_ids(rest).contains(k) by {
            if value_ids(rest).contains(k) {
                let j = choose|j: int| 0 <= j < rest.len() && (#[trigger] rest[j]).stable_id@ == k;
                assert(vals[j] == rest[j]);
            }
        }
        let (m1a, r1a) = spread_values(rest, hi, ma, r);
        let (m1b, r1b) = spread_values(rest, hi, mb, r);
        // The two maps agree on every identity of `vals`, the last one included.
        assert(agree_on(m1a, m1b, value_ids(vals))) by {
            assert forall|k: Seq<char>| #[trigger] value_ids(vals).contains(k) implies m1a.contains_key(k) == m1b.contains_key(k)
                && (m1a.contains_key(k) ==> m1a[k] == m1b[k]) by {
                if value_ids(rest).contains(k) {
                    assert(agree_on(m1a, m1b, value_ids(rest)));
                } else {
                    assert(ma.contains_key(k) == mb.contains_key(k));
                }
            }
        }
        assert(m1a.contains_key(id) == m1b.contains_key(id));
        if r1a > 0 && m1a.contains_key(id) && m1a[id] < hi {
            assert(m1b[id] == m1a[id]);
            let na = m1a.insert(id, (m1a[id] + 1) as u32);
            let nb = m1b.insert(id, (m1b[id] + 1) as u32);
            assert(spread_values(vals, hi, ma, r) == (na, r1a - 1));
            assert(spread_values(vals, hi, mb, r) == (nb, r1b - 1));
            assert forall|k: Seq<char>| #[trigger] value_ids(vals).contains(k) implies na.contains_key(k) == nb.contains_key(k)
                && (na.contains_key(k) ==> na[k] == nb[k]) by {
                if k != id {
                    assert(m1a.contains_key(k) == m1b.contains_key(k));
                }
            }
        } else {
            assert(!(r1b > 0 && m1b.contains_key(id) && m1b[id] < hi));
            assert(spread_values(vals, hi, ma, r) == (m1a, r1a));
            assert(spread_values(vals, hi, mb, r) == (m1b, r1b));
        }
    }
}

proof fn lemma_spread_keeps_keys(vals: Seq<ShareCandidate>, hi: u32, m: Map<Seq<char>, u32>, r: int, k: Seq<char>)
    requires
        m.contains_key(k),
    ensures
        spread_values(vals, hi, m, r).0.contains_key(k),
    decreases vals.len(),
{
    if vals.len() > 0 {
        lemma_spread_keeps_keys(vals.drop_last(), hi, m, r, k);
    }
}

proof fn lemma_group_weights_local(cs: Seq<ShareCandidate>, g: u32, lo: u32, hi: u32, m: Map<Seq<char>, u32>)
    requires
        cs.len() <= usize::MAX,
        distinct_ids(cs),
    ensures
        agree_on(group_weights(cs, g, lo, hi, m), group_weights(cs, g, lo, hi, Map::empty()), value_ids(values_at(cs, group_members(cs, g)))),
        forall|k: Seq<char>| #[trigger] value_ids(values_at(cs, group_members(cs, g))).contains(k) ==> group_weights(cs, g, lo, hi, m).contains_key(k),
        forall|k: Seq<char>| !value_ids(values_at(cs, group_members(cs, g))).contains(k) ==> (#[trigger] group_weights(cs, g, lo, hi, m).contains_key(k)
            == m.contains_key(k) && (m.contains_key(k) ==> group_weights(cs, g, lo, hi, m)[k] == m[k])),
{
    let mem = group_members(cs, g);
    lemma_group_values(cs, g);
    let order = remainder_order(cs, mem);
    lemma_remainder_order(cs, mem);
    lemma_remainder_values(cs, mem);
    lemma_values_distinct(cs, mem);
    let vm = values_at(cs, mem);
    let vo = values_at(cs, order);
    let r0 = group_leftover(cs, mem, hi);
    let taken = if r0 < order.len() {
        r0
    } else {
        order.len() as int
    };
    let chosen = values_at(cs, order.take(taken));
    lemma_first_pass_values(cs, mem, order.take(taken), lo, hi, m);
    lemma_first_pass_values(cs, mem, order.take(taken), lo, hi, Map::empty());
    lemma_first_values_at(vm, chosen, lo, hi, m);
    lemma_first_values_at(vm, chosen, lo, hi, Map::empty());
    let fa = first_values(vm, chosen, lo, hi, m);
    let fb = first_values(vm, chosen, lo, hi, Map::empty());
    assert(value_ids(vo) == value_ids(vm)) by {
        assert forall|k: Seq<char>| value_ids(vo).contains(k) implies value_ids(vm).contains(k) by {
            let j = choose|j: int| 0 <= j < vo.len() && (#[trigger] vo[j]).stable_id@ == k;
            assert(vo.to_set().contains(vo[j]));
            let i = choose|i: int| 0 <= i < vm.len() && vm[i] == vo[j];
            assert(vm[i].stable_id@ == k);
        }
        assert forall|k: Seq<char>| value_ids(vm).contains(k) implies value_ids(vo).contains(k) by {
            let j = choose|j: int| 0 <= j < vm.len() && (#[trigger] vm[j]).stable_id@ == k;
            assert(vm.to_set().contains(vm[j]));
            let i = choose|i: int| 0 <= i < vo.len() && vo[i] == vm[j];
            assert(vo[i].stable_id@ == k);
        }
        assert(value_ids(vo) =~= value_ids(vm));
    }
    assert(agree_on(fa, fb, value_ids(vm))) by {
        assert forall|k: Seq<char>| #[trigger] value_ids(vm).contains(k) implies fa.contains_key(k) == fb.contains_key(k)
            && (fa.contains_key(k) ==> fa[k] == fb[k]) by {
            let j = choose|j: int| 0 <= j < vm.len() && (#[trigger] vm[j]).stable_id@ == k;
            assert(fa[vm[j].stable_id@] == fb[vm[j].stable_id@]);
        }
    }
    lemma_spread_values(cs, order, hi, fa, r0 - taken);
    lemma_spread_values(cs, order, hi, fb, r0 - taken);
    lemma_spread_local(vo, hi, fa, fb, r0 - taken);
    assert forall|k: Seq<char>| #[trigger] value_ids(vm).contains(k) implies fa.contains_key(k) by {
        let j = choose|j: int| 0 <= j < vm.len() && (#[trigger] vm[j]).stable_id@ == k;
    }
    assert forall|k: Seq<char>| !value_ids(vm).contains(k) implies fa.contains_key(k) == m.contains_key(k)
        && (m.contains_key(k) ==> fa[k] == m[k]) by {
        assert forall|j: int| 0 <= j < vm.len() implies (#[trigger] vm[j]).stable_id@ != k by {
            if vm[j].stable_id@ == k {
                assert(value_ids(vm).contains(k));
            }
        }
    }
    lemma_spread_local(vo, hi, fa, fa, r0 - taken);
    assert forall|k: Seq<char>| #[trigger] value_ids(vm).contains(k) implies group_weights(cs, g, lo, hi, m).contains_key(k) by {
        lemma_spread_keeps_keys(vo, hi, fa, r0 - taken, k);
    }
}

proof fn lemma_weights_from_untouched(cs: Seq<ShareCandidate>, from: int, lo: u32, hi: u32, m: Map<Seq<char>, u32>, k: Seq<char>)
    requires
        cs.len() <= usize::MAX,
        distinct_ids(cs),
        forall|i: int| 0 <= i < cs.len() && cs[i].selection_group >= from ==> (#[trigger] cs[i]).stable_id@ != k,
    ensures
        weights_from(cs, from, lo, hi, m).contains_key(k) == m.contains_key(k),
        m.contains_key(k) ==> weights_from(cs, from, lo, hi, m)[k] == m[k],
    decreases u32::MAX + 1 - from,
{
    match smallest_group_from(cs, from) {
        None => {},
        Some(g) => {
            lemma_smallest_group_from(cs, from);
            lemma_group_weights_local(cs, g, lo, hi, m);
            lemma_members_increasing(cs, g, cs.len() as int);
            let vm = values_at(cs, group_members(cs, g));
            assert(!value_ids(vm).contains(k)) by {
                if value_ids(vm).contains(k) {
                    let j = choose|j: int| 0 <= j < vm.len() && (#[trigger] vm[j]).stable_id@ == k;
                    let i = group_members(cs, g)[j] as int;
                    assert(cs[i].stable_id@ == k);
                }
            }
            lemma_weights_from_untouched(cs, g + 1, lo, hi, group_weights(cs, g, lo, hi, m), k);
        },
    }
}

pub(crate) proof fn lemma_weights_from_group(cs: Seq<ShareCandidate>, from: int, lo: u32, hi: u32, m: Map<Seq<char>, u32>, i: int)
    requires
        cs.len() <= usize::MAX,
        distinct_ids(cs),
        0 <= i < cs.len(),
        cs[i].selection_group >= from,
        0 <= from,
    ensures
        weights_from(cs, from, lo, hi, m).contains_key(cs[i].stable_id@),
        group_weights(cs, cs[i].selection_group, lo, hi, Map::empty()).contains_key(cs[i].stable_id@),
        weights_from(cs, from, lo, hi, m)[cs[i].stable_id@] == group_weights(cs, cs[i].selection_group, lo, hi, Map::empty())[cs[i].stable_id@],
    decreases u32::MAX + 1 - from,
{
    let k = cs[i].stable_id@;
    let g = cs[i].selection_group;
    lemma_smallest_group_characterized(cs, from);
    lemma_members_increasing(cs, g, cs.len() as int);
    let vm = values_at(cs, group_members(cs, g));
    assert(value_ids(vm).contains(k)) by {
        let j = choose|j: int| 0 <= j < group_members(cs, g).len() && group_members(cs, g)[j] == i;
        assert(vm[j] == cs[i]);
    }
    lemma_group_weights_local(cs, g, lo, hi, Map::empty());
    match smallest_group_from(cs, from) {
        None => {},
        Some(h) => {
            lemma_smallest_group_from(cs, from);
            if h == g {
                lemma_group_weights_local(cs, g, lo, hi, m);
                let m1 = group_weights(cs, g, lo, hi, m);
                assert forall|q: int| 0 <= q < cs.len() && cs[q].selection_group >= g + 1 implies (#[trigger] cs[q]).stable_id@ != k by {
                    if q < i {
                        assert(cs[q].stable_id@ != cs[i].stable_id@);
                    } else if i < q {
                        assert(cs[i].stable_id@ != cs[q].stable_id@);
                    }
                }
                lemma_weights_from_untouched(cs, g + 1, lo, hi, m1, k);
            } else {
                lemma_weights_from_group(cs, h + 1, lo, hi, group_weights(cs, h, lo, hi, m), i);
            }
        },
    }
}

/// Weights are normalized independently inside each selection group: the
/// weight of a provider depends only on the shares of its own group. Two
/// lists of shares whose group `g` holds the same candidates, each list
/// without two candidates of one identity, give every provider of group
/// `g` the same weight.
pub proof fn lemma_weights_are_group_local(
    cs1: Seq<ShareCandidate>,
    cs2: Seq<ShareCandidate>,
    g: u32,
    lo: u32,
    hi: u32,
)
    requires
        cs1.len() <= usize::MAX,
        cs2.len() <= usize::MAX,
        distinct_ids(cs1),
        distinct_ids(cs2),
        in_group(cs1.to_set(), g) == in_group(cs2.to_set(), g),
    ensures
        forall|c: ShareCandidate| #[trigger] in_group(cs1.to_set(), g).contains(c) ==> allocation(cs1, lo, hi).contains_key(c.stable_id@)
            && allocation(cs2, lo, hi).contains_key(c.stable_id@) && allocation(cs1, lo, hi)[c.stable_id@]
            == allocation(cs2, lo, hi)[c.stable_id@],
{
    lemma_group_weights_same_set(cs1, cs2, g, lo, hi, Map::empty());
    assert forall|c: ShareCandidate| #[trigger] in_group(cs1.to_set(), g).contains(c) implies allocation(cs1, lo, hi).contains_key(c.stable_id@)
        && allocation(cs2, lo, hi).contains_key(c.stable_id@) && allocation(cs1, lo, hi)[c.stable_id@]
        == allocation(cs2, lo, hi)[c.stable_id@] by {
        let i = choose|i: int| 0 <= i < cs1.len() && cs1[i] == c;
        assert(in_group(cs2.to_set(), g).contains(c));
        let j = choose|j: int| 0 <= j < cs2.len() && cs2[j] == c;
        lemma_weights_from_group(cs1, 0, lo, hi, Map::empty(), i);
        lemma_weights_from_group(cs2, 0, lo, hi, Map::empty(), j);
    }
}

} // verus!
