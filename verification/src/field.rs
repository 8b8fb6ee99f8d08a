//! The analytic coupling kernel: the sidewall parallel plate of two wires, from
//! the thickness of their metal and the gap between them.
//!
//! ```text
//!   Cc (per um of parallel run) = eps_r * eps0 * T / max(gap, gap_min)
//! ```
//!
//! Ground draws off part of the field between wires at a known height `H`: the
//! plate falls off by Sakurai's factor `exp(-4 gap / (gap + 8.01 H))`.
use crate::number;
use crate::number::Real;
use vstd::prelude::*;

verus! {

/// The permittivity of the vacuum, in millionths of a fF/um.
pub const EPS0_FF_PER_UM: i128 = 8_854;

/// The gap below which coupling no longer grows, in millionths of a um.
pub const GAP_MIN_UM: i128 = 200_000;

/// How much the height of the metal counts against the gap in the fall-off, in
/// millionths.
pub const HEIGHT_WEIGHT: i128 = 8_010_000;

/// The gap that counts: never less than the least one.
pub open spec fn floored<N: Real>(gap_um: N) -> N {
    number::greater(gap_um, N::spec_micro(GAP_MIN_UM as int))
}

/// Coupling (fF) of one um of parallel run: `eps_r * eps0 * T / gap`, with the
/// gap floored.
pub open spec fn plate<N: Real>(eps_r: N, thickness_um: N, gap_um: N) -> N {
    eps_r.spec_times(N::spec_micro(EPS0_FF_PER_UM as int)).spec_times(thickness_um).spec_over(
        floored(gap_um),
    )
}

/// The part of the field between two wires that ground does not draw off:
/// `exp(-4 gap / (gap + 8.01 H))` for metal at height `H`.
pub open spec fn competition<N: Real>(height_um: N, gap: N) -> N {
    number::zero::<N>().spec_minus(
        N::spec_count(4).spec_times(gap).spec_over(
            gap.spec_plus(N::spec_micro(HEIGHT_WEIGHT as int).spec_times(height_um)),
        ),
    ).spec_exp()
}

/// As [`plate`], times the part of the field that ground does not draw off, with
/// the gap floored. Without a height it is the plate.
pub open spec fn fringe<N: Real>(eps_r: N, thickness_um: N, height_um: N, gap_um: N) -> N {
    if number::positive(height_um) {
        plate(eps_r, thickness_um, gap_um).spec_times(competition(height_um, floored(gap_um)))
    } else {
        plate(eps_r, thickness_um, gap_um)
    }
}

fn floored_of<N: Real>(gap_um: N) -> (r: N)
    ensures
        r == floored(gap_um),
{
    number::greater_of(gap_um, N::micro(GAP_MIN_UM))
}

/// Coupling (fF) of one um of parallel run between two wires of a layer.
pub fn coupling_per_um<N: Real>(eps_r: N, thickness_um: N, gap_um: N) -> (r: N)
    ensures
        r == plate(eps_r, thickness_um, gap_um),
{
    eps_r.times(N::micro(EPS0_FF_PER_UM)).times(thickness_um).over(floored_of(gap_um))
}

/// Coupling (fF) of one um of parallel run between two wires of a layer at a
/// height over ground.
pub fn coupling_per_um_fringe<N: Real>(
    eps_r: N,
    thickness_um: N,
    height_um: N,
    gap_um: N,
) -> (r: N)
    ensures
        r == fringe(eps_r, thickness_um, height_um, gap_um),
{
    let bare: N = coupling_per_um(eps_r, thickness_um, gap_um);
    if number::is_positive(height_um) {
        let gap: N = floored_of(gap_um);
        let over: N = gap.plus(N::micro(HEIGHT_WEIGHT).times(height_um));
        let depth: N = number::zero_of::<N>().minus(N::count(4).times(gap).over(over));
        bare.times(depth.exp())
    } else {
        bare
    }
}

} // verus!
