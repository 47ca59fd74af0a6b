//! What holds of every sampler, stated over its mathematical view.
use vstd::prelude::*;
use vstd::arithmetic::div_mod::lemma_fundamental_div_mod_converse;
use crate::geometry::{
    far_apart, in_domain, is_floor_sqrt, toroidal_delta_spec, wrap_spec, Point,
};
use crate::sampler::{Phase, SamplerView};

verus! {

/// The shortest displacement never exceeds half a period, and it leads from
/// `a` to `b` up to a whole number of periods.
pub proof fn lemma_delta_bounds(a: int, b: int, extent: int)
    requires
        extent > 0,
        0 <= a < extent,
        0 <= b < extent,
    ensures
        -extent <= 2 * toroidal_delta_spec(a, b, extent) <= extent,
        wrap_spec(a + toroidal_delta_spec(a, b, extent), extent) == b,
{
    let d = toroidal_delta_spec(a, b, extent);
    if d == b - a {
        lemma_fundamental_div_mod_converse(a + d, extent, 0, b);
    } else if d == b - a - extent {
        lemma_fundamental_div_mod_converse(a + d, extent, -1, b);
    } else {
        lemma_fundamental_div_mod_converse(a + d, extent, 1, b);
    }
}

/// Comparing rounded distances with a whole-number threshold loses nothing:
/// the rounded distance reaches `min_distance` exactly when the true one does.
pub proof fn lemma_rounded_distance_decides(squared: int, root: int, min_distance: int)
    requires
        is_floor_sqrt(squared, root),
        min_distance >= 0,
    ensures
        root >= min_distance <==> squared >= min_distance * min_distance,
{
    if root >= min_distance {
        assert(root * root >= min_distance * min_distance) by (nonlinear_arith)
            requires
                root >= min_distance >= 0,
        ;
    } else {
        assert((root + 1) * (root + 1) <= min_distance * min_distance) by (nonlinear_arith)
            requires
                0 <= root + 1 <= min_distance,
        ;
    }
}

/// Separation: where the block of cells reaches all neighbors, any two
/// different accepted points keep the minimum distance, measured across the
/// seams.
pub proof fn lemma_points_keep_distance(sampler: SamplerView, i: int, j: int)
    requires
        sampler.wf(),
        sampler.domain.block_reaches(),
        0 <= i < sampler.points.len(),
        0 <= j < sampler.points.len(),
        i != j,
    ensures
        far_apart(
            sampler.points[i],
            sampler.points[j],
            sampler.width(),
            sampler.height(),
            sampler.min_distance(),
        ),
{
    sampler.lemma_separated();
    assert(sampler.apart(i, j));
}

/// Separation, on every domain: two different accepted points of which one
/// lies in the block of cells around the other keep the minimum distance.
pub proof fn lemma_block_mates_keep_distance(sampler: SamplerView, i: int, j: int)
    requires
        sampler.wf(),
        0 <= i < sampler.points.len(),
        0 <= j < sampler.points.len(),
        i != j,
        sampler.grid.in_block(sampler.points[i], sampler.points[j]),
    ensures
        far_apart(
            sampler.points[i],
            sampler.points[j],
            sampler.width(),
            sampler.height(),
            sampler.min_distance(),
        ),
{
    assert(sampler.near(i, j));
    assert(sampler.apart(i, j));
}

/// Containment: every accepted point lies in the domain.
pub proof fn lemma_points_in_domain(sampler: SamplerView, i: int)
    requires
        sampler.wf(),
        0 <= i < sampler.points.len(),
    ensures
        in_domain(sampler.points[i], sampler.width(), sampler.height()),
        sampler.points[i].x < sampler.domain.width,
        sampler.points[i].y < sampler.domain.height,
{
}

/// Replay: two pulls from equal states that draw from the same stream of
/// words draw the same words, end in equal states and yield the same point.
pub proof fn lemma_same_stream_same_pull(
    one: SamplerView,
    other: SamplerView,
    stream: Seq<u64>,
    drawn_by_one: Seq<u64>,
    drawn_by_other: Seq<u64>,
)
    requires
        one == other,
        drawn_by_one.len() <= stream.len(),
        drawn_by_other.len() <= stream.len(),
        stream.take(drawn_by_one.len() as int) == drawn_by_one,
        stream.take(drawn_by_other.len() as int) == drawn_by_other,
        one.draws_exactly(drawn_by_one, 0),
        other.draws_exactly(drawn_by_other, 0),
    ensures
        drawn_by_one == drawn_by_other,
        one.pulled(drawn_by_one, 0) == other.pulled(drawn_by_other, 0),
{
    if drawn_by_one.len() <= drawn_by_other.len() {
        assert(drawn_by_other.take(drawn_by_one.len() as int) =~= drawn_by_one);
        one.lemma_draws_are_fixed(0, drawn_by_one, drawn_by_other);
    } else {
        assert(drawn_by_one.take(drawn_by_other.len() as int) =~= drawn_by_other);
        one.lemma_draws_are_fixed(0, drawn_by_other, drawn_by_one);
    }
}

/// Growth: a pull keeps every point accepted before it, in place, and adds
/// at most one; and there are never more active points than accepted ones.
pub proof fn lemma_pull_grows(before: SamplerView, after: SamplerView, emitted: Option<Point>)
    requires
        before.wf(),
        after.wf(),
        before.yields(after, emitted),
    ensures
        before.points.len() <= after.points.len() <= before.points.len() + 1,
        after.points.take(before.points.len() as int) == before.points,
        after.active.len() <= after.points.len(),
        before.active.len() <= before.points.len(),
{
    assert(after.points.take(before.points.len() as int) =~= before.points);
}

/// The end is final: a pull after the end yields nothing and changes nothing.
pub proof fn lemma_end_is_final(before: SamplerView, after: SamplerView, emitted: Option<Point>)
    requires
        before.phase() == Phase::Exhausted,
        before.yields(after, emitted),
    ensures
        emitted is None,
        after == before,
{
    assert(before.active =~= Seq::<usize>::empty());
}

/// `states` and `outcomes` record a run of pulls: each state but the first
/// is what the pull before it left behind.
pub open spec fn is_run(states: Seq<SamplerView>, outcomes: Seq<Option<Point>>) -> bool {
    &&& states.len() == outcomes.len() + 1
    &&& forall|i: int| 0 <= i < states.len() ==> (#[trigger] states[i]).wf()
    &&& forall|i: int|
        0 <= i < outcomes.len() ==> (#[trigger] states[i]).yields(states[i + 1], outcomes[i])
}

/// Until the end is reached, every pull of a run has yielded a point.
pub proof fn lemma_run_counts(states: Seq<SamplerView>, outcomes: Seq<Option<Point>>, at: int)
    requires
        is_run(states, outcomes),
        0 <= at < states.len(),
    ensures
        states[at].phase() == Phase::Exhausted || states[at].points.len() >= at,
        states[at].grid.domain == states[0].grid.domain,
    decreases at,
{
    if at > 0 {
        lemma_run_counts(states, outcomes, at - 1);
        assert(states[at - 1].yields(states[at - 1 + 1], outcomes[at - 1]));
        assert(states[at].wf());
        assert(states[at - 1].wf());
        if states[at - 1].phase() == Phase::Exhausted {
            lemma_end_is_final(states[at - 1], states[at], outcomes[at - 1]);
        }
    }
}

/// Termination: a run reaches the end after at most one pull more than the
/// grid has cells, and stays there.
pub proof fn lemma_run_ends(states: Seq<SamplerView>, outcomes: Seq<Option<Point>>, at: int)
    requires
        is_run(states, outcomes),
        states[0].grid.columns() * states[0].grid.rows() < at < states.len(),
    ensures
        states[at].phase() == Phase::Exhausted,
{
    lemma_run_counts(states, outcomes, at);
    assert(states[at].wf());
    states[at].lemma_count_bounded();
}

/// Seams: where the block of cells reaches all neighbors, a candidate closer
/// than the minimum distance to an accepted point is turned down, also when
/// the short way between the two leads across an edge of the domain.
pub proof fn lemma_close_candidate_rejected(sampler: SamplerView, c: Point, i: int)
    requires
        sampler.wf(),
        sampler.domain.block_reaches(),
        0 <= i < sampler.points.len(),
        !far_apart(
            c,
            sampler.points[i],
            sampler.width(),
            sampler.height(),
            sampler.min_distance(),
        ),
    ensures
        !sampler.accepts(c),
{
    if sampler.accepts(c) {
        sampler.lemma_accepted_is_apart(c, i);
    }
}

} // verus!
