//! Group-local, deterministic provider weights from pressure-derived shares.
//!
//! The pressure samples and the proportional shares that the caller derives
//! from them are IEEE-754 values; they enter this module as integers: a
//! sample or a smoothing factor as its bit pattern, a share as its whole
//! part together with the bit pattern of its fractional part. For the
//! non-negative values that occur here, bit patterns order exactly as the
//! values do.

use vstd::prelude::*;
use vstd::string::StringExecFns;

use crate::order::{chars_lt, lex_lt};
use crate::text::chars_of;
use crate::weights::WeightTable;

verus! {

/// Bit pattern of `1.0_f64`.
pub const ONE_BITS: u64 = 0x3FF0_0000_0000_0000;

/// Bit pattern of `-0.0_f64`.
pub const NEGATIVE_ZERO_BITS: u64 = 0x8000_0000_0000_0000;

/// Largest maximum weight that a configuration may ask for.
pub const WEIGHT_CEILING: u32 = 1000;

/// Numeric controls of pressure-weighted placement.
pub struct PressureWeightedConfig {
    /// Smallest weight a provider is given.
    pub minimum_weight: u32,
    /// Weight units distributed inside each selection group.
    pub maximum_weight: u32,
    /// Lower bound of a provider's availability, in percent.
    pub availability_floor_percent: u32,
    /// Bit pattern of the smoothing factor.
    pub smoothing_factor_bits: u64,
    /// Relative change, in percent, below which published weights are kept.
    pub change_threshold_percent: u32,
}

/// Why a placement calculation was refused.
#[derive(Debug)]
pub enum PlacementError {
    /// The weight bounds are not `1 <= minimum <= maximum <= 1000`.
    WeightBounds,
    /// The smoothing factor is not finite and in `(0, 1]`.
    SmoothingFactor,
    /// The availability floor is not between 1 and 100 percent.
    AvailabilityFloor,
    /// The named provider has no fresh valid pressure sample.
    MissingPressure(String),
    /// A selection group has no positive finite capacity.
    NoPositiveCapacity,
}

/// The text that describes `e`.
pub open spec fn placement_error_text(e: PlacementError) -> Seq<char> {
    match e {
        PlacementError::WeightBounds => "pressure weight bounds must satisfy 1 <= minimum <= maximum <= 1000"@,
        PlacementError::SmoothingFactor => "smoothingFactor must be finite and in (0, 1]"@,
        PlacementError::AvailabilityFloor => "availabilityFloorPercent must be between 1 and 100"@,
        PlacementError::MissingPressure(id) => "provider "@ + id@ + " has no fresh valid pressure sample"@,
        PlacementError::NoPositiveCapacity => "pressure weights have no positive finite capacity"@,
    }
}

impl PlacementError {
    /// The human-readable description of the error.
    pub fn message(&self) -> (text: String)
        ensures
            text@ == placement_error_text(*self),
    {
        match self {
            PlacementError::WeightBounds => {
                "pressure weight bounds must satisfy 1 <= minimum <= maximum <= 1000".to_owned()
            },
            PlacementError::SmoothingFactor => {
                "smoothingFactor must be finite and in (0, 1]".to_owned()
            },
            PlacementError::AvailabilityFloor => {
                "availabilityFloorPercent must be between 1 and 100".to_owned()
            },
            PlacementError::MissingPressure(id) => {
                let mut text = "provider ".to_owned();
                text.append(id.as_str());
                text.append(" has no fresh valid pressure sample");
                text
            },
            PlacementError::NoPositiveCapacity => {
                "pressure weights have no positive finite capacity".to_owned()
            },
        }
    }
}

/// `1 <= minimum <= maximum <= 1000`.
pub open spec fn weight_bounds_valid(config: PressureWeightedConfig) -> bool {
    1 <= config.minimum_weight <= config.maximum_weight <= WEIGHT_CEILING
}

/// The smoothing factor is a number in `(0, 1]`: among all bit patterns,
/// exactly those of the positive numbers up to one lie in `(0, ONE_BITS]`.
pub open spec fn smoothing_factor_valid(config: PressureWeightedConfig) -> bool {
    0 < config.smoothing_factor_bits <= ONE_BITS
}

/// The availability floor is between 1 and 100 percent.
pub open spec fn availability_floor_valid(config: PressureWeightedConfig) -> bool {
    1 <= config.availability_floor_percent <= 100
}

/// All numeric controls are acceptable.
pub open spec fn config_valid(config: PressureWeightedConfig) -> bool {
    weight_bounds_valid(config) && smoothing_factor_valid(config) && availability_floor_valid(
        config,
    )
}

/// Validate numeric pressure-placement controls before calculating weights.
pub fn validate_config(config: &PressureWeightedConfig) -> (result: Result<(), PlacementError>)
    ensures
        result matches Ok(()) <==> config_valid(*config),
        result matches Err(PlacementError::WeightBounds) <==> !weight_bounds_valid(*config),
        result matches Err(PlacementError::SmoothingFactor) <==> weight_bounds_valid(*config)
            && !smoothing_factor_valid(*config),
        result matches Err(PlacementError::AvailabilityFloor) <==> weight_bounds_valid(*config)
            && smoothing_factor_valid(*config) && !availability_floor_valid(*config),
{
    if config.minimum_weight == 0 || config.maximum_weight == 0 || config.minimum_weight
        > config.maximum_weight || config.maximum_weight > WEIGHT_CEILING {
        return Err(PlacementError::WeightBounds);
    }
    if config.smoothing_factor_bits == 0 || config.smoothing_factor_bits > ONE_BITS {
        return Err(PlacementError::SmoothingFactor);
    }
    if config.availability_floor_percent < 1 || config.availability_floor_percent > 100 {
        return Err(PlacementError::AvailabilityFloor);
    }
    Ok(())
}

/// One provider's typed pressure input for a single calculation.
pub struct PressureInput {
    /// Stable provider identity used for state and deterministic ties.
    pub stable_id: String,
    /// Existing routing selection group.
    pub selection_group: u32,
    /// Relative configured provider capacity.
    pub capacity_weight: u32,
    /// Bit pattern of the normalized signal, if a fresh sample exists.
    pub pressure_bits: Option<u64>,
}

/// A sample is a finite number in `[0, 1]`: the bit patterns of `+0.0` up to
/// `1.0`, and that of `-0.0`.
pub open spec fn pressure_sample_valid(sample: Option<u64>) -> bool {
    match sample {
        Some(bits) => bits <= ONE_BITS || bits == NEGATIVE_ZERO_BITS,
        None => false,
    }
}

impl PressureInput {
    /// The capacity used in the calculation: the configured one, at least 1.
    pub fn effective_capacity(&self) -> (capacity: u32)
        ensures
            capacity == (if self.capacity_weight == 0 {
                1
            } else {
                self.capacity_weight
            }),
    {
        if self.capacity_weight == 0 {
            1
        } else {
            self.capacity_weight
        }
    }
}

/// Fail closed on the first provider, in input order, without a fresh valid
/// pressure sample.
pub fn check_pressure_samples(inputs: &Vec<PressureInput>) -> (result: Result<(), PlacementError>)
    ensures
        result matches Ok(()) <==> forall|i: int|
            0 <= i < inputs@.len() ==> pressure_sample_valid(#[trigger] inputs@[i].pressure_bits),
        match result {
            Ok(()) => true,
            Err(PlacementError::MissingPressure(id)) => exists|i: int|
                0 <= i < inputs@.len() && !pressure_sample_valid(#[trigger] inputs@[i].pressure_bits)
                    && id@ == inputs@[i].stable_id@ && forall|j: int|
                    0 <= j < i ==> pressure_sample_valid(#[trigger] inputs@[j].pressure_bits),
            Err(_) => false,
        },
{
    let mut i: usize = 0;
    while i < inputs.len()
        invariant
            i <= inputs.len(),
            forall|j: int| 0 <= j < i ==> pressure_sample_valid(#[trigger] inputs@[j].pressure_bits),
        decreases inputs.len() - i,
    {
        let valid: bool = match inputs[i].pressure_bits {
            Some(bits) => bits <= ONE_BITS || bits == NEGATIVE_ZERO_BITS,
            None => false,
        };
        if !valid {
            return Err(PlacementError::MissingPressure(inputs[i].stable_id.clone()));
        }
        i = i + 1;
    }
    Ok(())
}

/// One provider's proportional share of its group's weight units.
pub struct ShareCandidate {
    /// Stable provider identity.
    pub stable_id: String,
    /// Selection group the share is computed in.
    pub selection_group: u32,
    /// Whole units of the exact share.
    pub floor_share: u64,
    /// Bit pattern of the non-negative fractional part of the exact share.
    pub remainder_key: u64,
}

/// Candidate `i` receives a leftover unit before candidate `j`: larger
/// remainder first, then smaller identity, then earlier input position.
pub open spec fn precedes(cs: Seq<ShareCandidate>, i: int, j: int) -> bool {
    let a = cs[i];
    let b = cs[j];
    a.remainder_key > b.remainder_key || (a.remainder_key == b.remainder_key && (lex_lt(
        a.stable_id@,
        b.stable_id@,
    ) || (a.stable_id@ == b.stable_id@ && i < j)))
}

/// Positions, among the first `n` candidates, of those in group `g`.
pub open spec fn members_upto(cs: Seq<ShareCandidate>, g: u32, n: int) -> Seq<usize>
    decreases n,
{
    if n <= 0 {
        Seq::empty()
    } else if cs[n - 1].selection_group == g {
        members_upto(cs, g, n - 1).push((n - 1) as usize)
    } else {
        members_upto(cs, g, n - 1)
    }
}

/// Positions of the candidates in group `g`, in input order.
pub open spec fn group_members(cs: Seq<ShareCandidate>, g: u32) -> Seq<usize> {
    members_upto(cs, g, cs.len() as int)
}

/// Sum of the whole units of the given candidates.
pub open spec fn floor_total(cs: Seq<ShareCandidate>, mem: Seq<usize>) -> int
    decreases mem.len(),
{
    if mem.len() == 0 {
        0
    } else {
        floor_total(cs, mem.drop_last()) + cs[mem.last() as int].floor_share
    }
}

/// Where, in `mem`, the candidate that precedes all others stands.
pub open spec fn least_position(cs: Seq<ShareCandidate>, mem: Seq<usize>) -> int
    decreases mem.len(),
{
    if mem.len() <= 1 {
        0
    } else {
        let p = least_position(cs, mem.drop_last());
        if precedes(cs, mem.last() as int, mem[p] as int) {
            mem.len() - 1
        } else {
            p
        }
    }
}

pub proof fn lemma_least_position_in_range(cs: Seq<ShareCandidate>, mem: Seq<usize>)
    requires
        mem.len() > 0,
    ensures
        0 <= least_position(cs, mem) < mem.len(),
    decreases mem.len(),
{
    if mem.len() > 1 {
        lemma_least_position_in_range(cs, mem.drop_last());
    }
}

/// The candidates of `mem` in the order in which they receive leftover
/// units: repeatedly the one that precedes all that remain.
pub open spec fn remainder_order(cs: Seq<ShareCandidate>, mem: Seq<usize>) -> Seq<usize>
    decreases mem.len(),
{
    if mem.len() == 0 {
        Seq::empty()
    } else {
        let p = least_position(cs, mem);
        proof {
            lemma_least_position_in_range(cs, mem);
        }
        seq![mem[p]] + remainder_order(cs, mem.remove(p))
    }
}

/// The whole units of a share, plus one if it was chosen for a leftover
/// unit, held within `[lo, hi]`.
pub open spec fn bounded_share(floor: u64, bump: bool, lo: u32, hi: u32) -> u32 {
    let rounded: int = if bump && floor < u64::MAX {
        floor + 1
    } else {
        floor as int
    };
    (if rounded < lo {
        lo as int
    } else if rounded > hi {
        hi as int
    } else {
        rounded
    }) as u32
}

/// Record each candidate of `mem`, in order, at its bounded share; the
/// candidates in `chosen` get a leftover unit.
pub open spec fn first_pass(
    cs: Seq<ShareCandidate>,
    mem: Seq<usize>,
    chosen: Seq<usize>,
    lo: u32,
    hi: u32,
    m: Map<Seq<char>, u32>,
) -> Map<Seq<char>, u32>
    decreases mem.len(),
{
    if mem.len() == 0 {
        m
    } else {
        let i = mem.last();
        first_pass(cs, mem.drop_last(), chosen, lo, hi, m).insert(
            cs[i as int].stable_id@,
            bounded_share(cs[i as int].floor_share, chosen.contains(i), lo, hi),
        )
    }
}

/// Hand out `r` remaining units along `order`, one to each candidate whose
/// recorded weight is still below `hi`; also gives the units left.
pub open spec fn spread_leftover(
    cs: Seq<ShareCandidate>,
    order: Seq<usize>,
    hi: u32,
    m: Map<Seq<char>, u32>,
    r: int,
) -> (Map<Seq<char>, u32>, int)
    decreases order.len(),
{
    if order.len() == 0 {
        (m, r)
    } else {
        let (m1, r1) = spread_leftover(cs, order.drop_last(), hi, m, r);
        let id = cs[order.last() as int].stable_id@;
        if r1 > 0 && m1.contains_key(id) && m1[id] < hi {
            (m1.insert(id, (m1[id] + 1) as u32), r1 - 1)
        } else {
            (m1, r1)
        }
    }
}

/// Units of `hi` that the whole parts of the group's shares leave over; the
/// sum of the whole parts saturates at `u64::MAX`.
pub open spec fn group_leftover(cs: Seq<ShareCandidate>, mem: Seq<usize>, hi: u32) -> int {
    let total = floor_total(cs, mem);
    let allocated = if total > u64::MAX {
        u64::MAX as int
    } else {
        total
    };
    if hi > allocated {
        hi - allocated
    } else {
        0
    }
}

/// The weights of group `g` recorded over `m`.
pub open spec fn group_weights(
    cs: Seq<ShareCandidate>,
    g: u32,
    lo: u32,
    hi: u32,
    m: Map<Seq<char>, u32>,
) -> Map<Seq<char>, u32> {
    let mem = group_members(cs, g);
    let order = remainder_order(cs, mem);
    let r0 = group_leftover(cs, mem, hi);
    let taken = if r0 < order.len() {
        r0
    } else {
        order.len() as int
    };
    let m1 = first_pass(cs, mem, order.take(taken), lo, hi, m);
    spread_leftover(cs, order, hi, m1, r0 - taken).0
}

/// The smallest selection group, not below `lo`, of any candidate.
pub open spec fn smallest_group_from(cs: Seq<ShareCandidate>, lo: int) -> Option<u32>
    decreases cs.len(),
{
    if cs.len() == 0 {
        None
    } else {
        let rest = smallest_group_from(cs.drop_last(), lo);
        let g = cs.last().selection_group;
        if g >= lo && (rest matches Some(h) ==> g < h) {
            Some(g)
        } else {
            rest
        }
    }
}

pub proof fn lemma_smallest_group_from(cs: Seq<ShareCandidate>, lo: int)
    ensures
        smallest_group_from(cs, lo) matches Some(g) ==> g >= lo,
    decreases cs.len(),
{
    if cs.len() > 0 {
        lemma_smallest_group_from(cs.drop_last(), lo);
    }
}

/// The weights of every group from `lo` upwards, group by group in
/// ascending order, recorded over `m`.
pub open spec fn weights_from(
    cs: Seq<ShareCandidate>,
    lo: int,
    wlo: u32,
    whi: u32,
    m: Map<Seq<char>, u32>,
) -> Map<Seq<char>, u32>
    decreases u32::MAX + 1 - lo,
{
    match smallest_group_from(cs, lo) {
        None => m,
        Some(g) => {
            proof {
                lemma_smallest_group_from(cs, lo);
            }
            weights_from(cs, g + 1, wlo, whi, group_weights(cs, g, wlo, whi, m))
        },
    }
}

/// The weights that the shares `cs` give, with every weight in `[lo, hi]`.
pub open spec fn allocation(cs: Seq<ShareCandidate>, lo: u32, hi: u32) -> Map<Seq<char>, u32> {
    weights_from(cs, 0, lo, hi, Map::empty())
}

/// `ids` holds the characters of each candidate's identity.
pub open spec fn identities_of(cs: Seq<ShareCandidate>, ids: Seq<Vec<char>>) -> bool {
    &&& ids.len() == cs.len()
    &&& forall|k: int| 0 <= k < cs.len() ==> (#[trigger] ids[k])@ == cs[k].stable_id@
}

/// Every position in `mem` names a candidate.
pub open spec fn positions_in(mem: Seq<usize>, n: int) -> bool {
    forall|k: int| 0 <= k < mem.len() ==> (#[trigger] mem[k]) < n
}

fn precedes_exec(cs: &Vec<ShareCandidate>, ids: &Vec<Vec<char>>, i: usize, j: usize) -> (b: bool)
    requires
        identities_of(cs@, ids@),
        i < cs.len(),
        j < cs.len(),
    ensures
        b == precedes(cs@, i as int, j as int),
{
    let a: &ShareCandidate = &cs[i];
    let b: &ShareCandidate = &cs[j];
    assert(ids@[i as int]@ == cs@[i as int].stable_id@);
    assert(ids@[j as int]@ == cs@[j as int].stable_id@);
    if a.remainder_key != b.remainder_key {
        a.remainder_key > b.remainder_key
    } else if chars_lt(&ids[i], &ids[j]) {
        true
    } else {
        a.stable_id == b.stable_id && i < j
    }
}

fn group_members_exec(cs: &Vec<ShareCandidate>, g: u32) -> (mem: Vec<usize>)
    ensures
        mem@ == group_members(cs@, g),
        positions_in(mem@, cs.len() as int),
{
    let mut mem: Vec<usize> = Vec::new();
    let mut i: usize = 0;
    while i < cs.len()
        invariant
            i <= cs.len(),
            mem@ == members_upto(cs@, g, i as int),
            positions_in(mem@, i as int),
        decreases cs.len() - i,
    {
        if cs[i].selection_group == g {
            mem.push(i);
        }
        i = i + 1;
    }
    mem
}

fn least_position_exec(cs: &Vec<ShareCandidate>, ids: &Vec<Vec<char>>, mem: &Vec<usize>) -> (p: usize)
    requires
        identities_of(cs@, ids@),
        positions_in(mem@, cs.len() as int),
        mem.len() > 0,
    ensures
        p as int == least_position(cs@, mem@),
        p < mem.len(),
{
    let mut best: usize = 0;
    let mut t: usize = 1;
    while t < mem.len()
        invariant
            identities_of(cs@, ids@),
            positions_in(mem@, cs.len() as int),
            1 <= t <= mem.len(),
            best < t,
            best as int == least_position(cs@, mem@.take(t as int)),
        decreases mem.len() - t,
    {
        let ghost prefix = mem@.take(t + 1);
        assert(prefix.drop_last() =~= mem@.take(t as int));
        assert(prefix.last() == mem@[t as int]);
        assert(prefix[best as int] == mem@[best as int]);
        if precedes_exec(cs, ids, mem[t], mem[best]) {
            best = t;
        }
        t = t + 1;
    }
    assert(mem@.take(mem.len() as int) =~= mem@);
    best
}

fn remainder_order_exec(cs: &Vec<ShareCandidate>, ids: &Vec<Vec<char>>, mem: &Vec<usize>) -> (order: Vec<usize>)
    requires
        identities_of(cs@, ids@),
        positions_in(mem@, cs.len() as int),
    ensures
        order@ == remainder_order(cs@, mem@),
        positions_in(order@, cs.len() as int),
{
    let mut rest: Vec<usize> = Vec::new();
    let mut k: usize = 0;
    while k < mem.len()
        invariant
            k <= mem.len(),
            rest@ == mem@.take(k as int),
        decreases mem.len() - k,
    {
        rest.push(mem[k]);
        assert(mem@.take(k + 1) =~= mem@.take(k as int).push(mem@[k as int]));
        k = k + 1;
    }
    assert(mem@.take(mem.len() as int) =~= mem@);
    let mut order: Vec<usize> = Vec::new();
    assert(order@ + remainder_order(cs@, rest@) =~= remainder_order(cs@, mem@));
    while rest.len() > 0
        invariant
            identities_of(cs@, ids@),
            positions_in(rest@, cs.len() as int),
            positions_in(order@, cs.len() as int),
            order@ + remainder_order(cs@, rest@) == remainder_order(cs@, mem@),
        decreases rest.len(),
    {
        let ghost before = rest@;
        let ghost done = order@;
        let p: usize = least_position_exec(cs, ids, &rest);
        let x: usize = rest.remove(p);
        order.push(x);
        assert(remainder_order(cs@, before) == seq![x] + remainder_order(cs@, rest@));
        assert(order@ + remainder_order(cs@, rest@) =~= done + (seq![x] + remainder_order(
            cs@,
            rest@,
        )));
        assert forall|k: int| 0 <= k < rest@.len() implies (#[trigger] rest@[k]) < cs.len() by {
            if k < p {
                assert(rest@[k] == before[k]);
            } else {
                assert(rest@[k] == before[k + 1]);
            }
        }
    }
    assert(order@ + remainder_order(cs@, rest@) =~= order@);
    order
}

fn contains_position(order: &Vec<usize>, taken: usize, i: usize) -> (found: bool)
    requires
        taken <= order.len(),
    ensures
        found == order@.take(taken as int).contains(i),
{
    let mut k: usize = 0;
    while k < taken
        invariant
            taken <= order.len(),
            k <= taken,
            forall|q: int| 0 <= q < k ==> order@[q] != i,
        decreases taken - k,
    {
        if order[k] == i {
            assert(order@.take(taken as int)[k as int] == i);
            return true;
        }
        k = k + 1;
    }
    assert forall|q: int| 0 <= q < taken implies order@.take(taken as int)[q] != i by {
        assert(order@.take(taken as int)[q] == order@[q]);
    }
    false
}

fn group_weights_exec(
    cs: &Vec<ShareCandidate>,
    ids: &Vec<Vec<char>>,
    g: u32,
    lo: u32,
    hi: u32,
    table: &mut WeightTable,
)
    requires
        identities_of(cs@, ids@),
        lo <= hi,
    ensures
        final(table)@ == group_weights(cs@, g, lo, hi, old(table)@),
{
    let mem: Vec<usize> = group_members_exec(cs, g);
    let order: Vec<usize> = remainder_order_exec(cs, ids, &mem);
    let ghost m0 = table@;

    // Whole units already allocated, saturating.
    let mut allocated: u64 = 0;
    let mut t: usize = 0;
    while t < mem.len()
        invariant
            positions_in(mem@, cs.len() as int),
            t <= mem.len(),
            allocated as int == (if floor_total(cs@, mem@.take(t as int)) > u64::MAX {
                u64::MAX as int
            } else {
                floor_total(cs@, mem@.take(t as int))
            }),
        decreases mem.len() - t,
    {
        assert(mem@.take(t + 1).drop_last() =~= mem@.take(t as int));
        assert(mem@.take(t + 1).last() == mem@[t as int]);
        let f: u64 = cs[mem[t]].floor_share;
        allocated = if allocated > u64::MAX - f {
            u64::MAX
        } else {
            allocated + f
        };
        t = t + 1;
    }
    assert(mem@.take(mem.len() as int) =~= mem@);
    let target: u64 = hi as u64;
    let leftover: u64 = if target > allocated {
        target - allocated
    } else {
        0
    };
    let taken: usize = if leftover < order.len() as u64 {
        leftover as usize
    } else {
        order.len()
    };
    let mut remaining: u64 = leftover - taken as u64;

    // Whole units, plus a leftover unit for the first `taken` in remainder
    // order, held within the bounds.
    let mut t: usize = 0;
    while t < mem.len()
        invariant
            identities_of(cs@, ids@),
            positions_in(mem@, cs.len() as int),
            taken <= order.len(),
            lo <= hi,
            t <= mem.len(),
            table@ == first_pass(cs@, mem@.take(t as int), order@.take(taken as int), lo, hi, m0),
        decreases mem.len() - t,
    {
        assert(mem@.take(t + 1).drop_last() =~= mem@.take(t as int));
        assert(mem@.take(t + 1).last() == mem@[t as int]);
        let i: usize = mem[t];
        let floor: u64 = cs[i].floor_share;
        let chosen: bool = contains_position(&order, taken, i);
        let rounded: u64 = if chosen && floor < u64::MAX {
            floor + 1
        } else {
            floor
        };
        let bounded: u64 = if rounded < lo as u64 {
            lo as u64
        } else if rounded > hi as u64 {
            hi as u64
        } else {
            rounded
        };
        table.insert(cs[i].stable_id.clone(), bounded as u32);
        t = t + 1;
    }
    assert(mem@.take(mem.len() as int) =~= mem@);
    let ghost m1 = table@;

    // Units still left after the bounds, along remainder order.
    let mut t: usize = 0;
    assert(order@.take(0) =~= Seq::<usize>::empty());
    while t < order.len()
        invariant
            identities_of(cs@, ids@),
            positions_in(order@, cs.len() as int),
            t <= order.len(),
            (table@, remaining as int) == spread_leftover(
                cs@,
                order@.take(t as int),
                hi,
                m1,
                leftover - taken,
            ),
        decreases order.len() - t,
    {
        assert(order@.take(t + 1).drop_last() =~= order@.take(t as int));
        assert(order@.take(t + 1).last() == order@[t as int]);
        let i: usize = order[t];
        if remaining > 0 {
            match table.get(cs[i].stable_id.as_str()) {
                Some(current) => {
                    if current < hi {
                        table.insert(cs[i].stable_id.clone(), current + 1);
                        remaining = remaining - 1;
                    }
                },
                None => {},
            }
        }
        t = t + 1;
    }
    assert(order@.take(order.len() as int) =~= order@);
}

fn smallest_group_exec(cs: &Vec<ShareCandidate>, lo: u64) -> (g: Option<u32>)
    ensures
        g == smallest_group_from(cs@, lo as int),
{
    let mut best: Option<u32> = None;
    let mut t: usize = 0;
    while t < cs.len()
        invariant
            t <= cs.len(),
            best == smallest_group_from(cs@.take(t as int), lo as int),
        decreases cs.len() - t,
    {
        assert(cs@.take(t + 1).drop_last() =~= cs@.take(t as int));
        assert(cs@.take(t + 1).last() == cs@[t as int]);
        let g: u32 = cs[t].selection_group;
        let better: bool = match best {
            Some(h) => g < h,
            None => true,
        };
        if g as u64 >= lo && better {
            best = Some(g);
        }
        t = t + 1;
    }
    assert(cs@.take(cs.len() as int) =~= cs@);
    best
}

/// Round every group's shares to integer weights: each group distributes
/// `maximum_weight` units, whole parts first, leftover units by remainder
/// order, every weight held within the configured bounds, and units still
/// left after the bounds handed out along remainder order.
pub fn allocate_weights(cs: &Vec<ShareCandidate>, config: &PressureWeightedConfig) -> (table: WeightTable)
    requires
        config.minimum_weight <= config.maximum_weight,
    ensures
        table@ == allocation(cs@, config.minimum_weight, config.maximum_weight),
{
    let lo: u32 = config.minimum_weight;
    let hi: u32 = config.maximum_weight;
    let mut ids: Vec<Vec<char>> = Vec::new();
    let mut t: usize = 0;
    while t < cs.len()
        invariant
            t <= cs.len(),
            ids@.len() == t,
            forall|k: int| 0 <= k < t ==> (#[trigger] ids@[k])@ == cs@[k].stable_id@,
        decreases cs.len() - t,
    {
        ids.push(chars_of(cs[t].stable_id.as_str()));
        t = t + 1;
    }
    let mut table: WeightTable = WeightTable::new();
    let mut from: u64 = 0;
    loop
        invariant
            identities_of(cs@, ids@),
            lo <= hi,
            from <= u32::MAX as u64 + 1,
            weights_from(cs@, from as int, lo, hi, table@) == allocation(cs@, lo, hi),
        ensures
            table@ == allocation(cs@, lo, hi),
        decreases u32::MAX as u64 + 1 - from,
    {
        match smallest_group_exec(cs, from) {
            None => {
                break;
            },
            Some(g) => {
                proof {
                    lemma_smallest_group_from(cs@, from as int);
                }
                group_weights_exec(cs, &ids, g, lo, hi, &mut table);
                from = g as u64 + 1;
            },
        }
    }
    table
}

/// `new_weight` differs from `old_weight` by at least `percent` percent of
/// `old_weight` (of 1 where `old_weight` is 0).
pub open spec fn changed_materially(old_weight: u32, new_weight: u32, percent: u32) -> bool {
    let diff: int = if new_weight >= old_weight {
        new_weight - old_weight
    } else {
        old_weight - new_weight
    };
    let base: int = if old_weight == 0 {
        1
    } else {
        old_weight as int
    };
    100 * diff >= percent * base
}

/// Publishing `proposed` over `published` is a material change: some
/// proposed weight is new or changed by at least the threshold, or some
/// published provider is gone.
pub open spec fn material_change(
    proposed: Map<Seq<char>, u32>,
    published: Map<Seq<char>, u32>,
    percent: u32,
) -> bool {
    (exists|id: Seq<char>|
        #[trigger] proposed.contains_key(id) && (!published.contains_key(id) || changed_materially(
            published[id],
            proposed[id],
            percent,
        ))) || (exists|id: Seq<char>|
        #[trigger] published.contains_key(id) && !proposed.contains_key(id))
}

/// The weights published after proposing `proposed` over `published`.
pub open spec fn settled(
    proposed: Map<Seq<char>, u32>,
    published: Map<Seq<char>, u32>,
    percent: u32,
) -> Map<Seq<char>, u32> {
    if material_change(proposed, published, percent) {
        proposed
    } else {
        published
    }
}

/// Cross-reconcile state: the last published effective weight by stable
/// provider identity.
pub struct PlacementState {
    weights: WeightTable,
}

impl View for PlacementState {
    type V = Map<Seq<char>, u32>;

    closed spec fn view(&self) -> Map<Seq<char>, u32> {
        self.weights@
    }
}

fn material_change_exec(proposed: &WeightTable, published: &WeightTable, percent: u32) -> (b: bool)
    ensures
        b == material_change(proposed@, published@, percent),
{
    let ids: Vec<String> = proposed.keys();
    let mut t: usize = 0;
    while t < ids.len()
        invariant
            t <= ids.len(),
            forall|j: int| 0 <= j < ids@.len() ==> proposed@.contains_key(#[trigger] ids@[j]@),
            forall|j: int|
                0 <= j < t ==> published@.contains_key(#[trigger] ids@[j]@) && !changed_materially(
                    published@[ids@[j]@],
                    proposed@[ids@[j]@],
                    percent,
                ),
        decreases ids.len() - t,
    {
        let new_weight: u32 = match proposed.get(ids[t].as_str()) {
            Some(w) => w,
            None => 0,
        };
        match published.get(ids[t].as_str()) {
            None => {
                return true;
            },
            Some(old_weight) => {
                let diff: u64 = if new_weight >= old_weight {
                    (new_weight - old_weight) as u64
                } else {
                    (old_weight - new_weight) as u64
                };
                let base: u64 = if old_weight == 0 {
                    1
                } else {
                    old_weight as u64
                };
                assert((percent as u64) * base <= (u32::MAX as u64) * (u32::MAX as u64))
                    by (nonlinear_arith)
                    requires
                        base <= u32::MAX as u64,
                ;
                if 100 * diff >= percent as u64 * base {
                    return true;
                }
            },
        }
        t = t + 1;
    }
    let gone: Vec<String> = published.keys();
    let mut t: usize = 0;
    while t < gone.len()
        invariant
            t <= gone.len(),
            forall|j: int| 0 <= j < gone@.len() ==> published@.contains_key(#[trigger] gone@[j]@),
            forall|j: int| 0 <= j < t ==> proposed@.contains_key(#[trigger] gone@[j]@),
        decreases gone.len() - t,
    {
        if proposed.get(gone[t].as_str()).is_none() {
            return true;
        }
        t = t + 1;
    }
    assert forall|id: Seq<char>| #[trigger] proposed@.contains_key(id) implies published@.contains_key(
        id,
    ) && !changed_materially(published@[id], proposed@[id], percent) by {
        let j = choose|j: int| 0 <= j < ids@.len() && ids@[j]@ == id;
    }
    assert forall|id: Seq<char>| #[trigger] published@.contains_key(id) implies proposed@.contains_key(
        id,
    ) by {
        let j = choose|j: int| 0 <= j < gone@.len() && gone@[j]@ == id;
    }
    false
}

impl PlacementState {
    /// State before any weights were published.
    pub fn new() -> (state: PlacementState)
        ensures
            state@ == Map::<Seq<char>, u32>::empty(),
    {
        PlacementState { weights: WeightTable::new() }
    }

    /// The last published weights.
    pub fn weights(&self) -> (weights: &WeightTable)
        ensures
            weights@ == self@,
    {
        &self.weights
    }

    /// Publish `proposed` when it changes the published weights materially,
    /// else keep them; returns the weights now published.
    pub fn settle(&mut self, proposed: WeightTable, change_threshold_percent: u32) -> (published: WeightTable)
        ensures
            published@ == settled(proposed@, old(self)@, change_threshold_percent),
            final(self)@ == published@,
    {
        if material_change_exec(&proposed, &self.weights, change_threshold_percent) {
            self.weights = proposed.duplicate();
            proposed
        } else {
            self.weights.duplicate()
        }
    }
}

/// Calculate deterministic, group-local weights from validated shares and
/// publish them through the change threshold. A refused configuration
/// leaves the state as it was.
pub fn publish_weights(
    shares: &Vec<ShareCandidate>,
    config: &PressureWeightedConfig,
    state: &mut PlacementState,
) -> (result: Result<WeightTable, PlacementError>)
    ensures
        match result {
            Ok(weights) => {
                &&& config_valid(*config)
                &&& weights@ == settled(
                    allocation(shares@, config.minimum_weight, config.maximum_weight),
                    old(state)@,
                    config.change_threshold_percent,
                )
                &&& final(state)@ == weights@
            },
            Err(error) => {
                &&& !config_valid(*config)
                &&& (error is WeightBounds <==> !weight_bounds_valid(*config))
                &&& (error is SmoothingFactor <==> weight_bounds_valid(*config) && !smoothing_factor_valid(*config))
                &&& (error is AvailabilityFloor <==> weight_bounds_valid(*config) && smoothing_factor_valid(*config)
                    && !availability_floor_valid(*config))
                &&& !(error is MissingPressure) && !(error is NoPositiveCapacity)
                &&& final(state)@ == old(state)@
            },
        },
{
    match validate_config(config) {
        Err(error) => Err(error),
        Ok(()) => {
            let proposed: WeightTable = allocate_weights(shares, config);
            Ok(state.settle(proposed, config.change_threshold_percent))
        },
    }
}

} // verus!
