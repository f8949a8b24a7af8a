//! Laws relating bulk construction and orthogonal range search.
use vstd::prelude::*;

use crate::geometry::{buildable, in_box, is_lex_sorted_perm, lemma_filter_all_true};

verus! {

/// Round-trip law: orthogonal range search with bounds that cover every
/// stored point returns the stored point sequence unchanged. Together with
/// the contracts of bulk construction (the built tree stores exactly the
/// input points, as a multiset) and of orthogonal search (the result is the
/// stored sequence filtered by box membership), building a tree from a point
/// set and querying it with all-covering bounds hands the point set back.
pub proof fn lemma_orthogonal_round_trip(tree_points: Seq<Seq<i32>>, lb: Seq<i32>, ub: Seq<i32>)
    requires
        forall|p: Seq<i32>| #[trigger] tree_points.contains(p) ==> in_box(p, lb, ub),
    ensures
        tree_points.filter(|p: Seq<i32>| in_box(p, lb, ub)) == tree_points,
{
    lemma_filter_all_true(tree_points, |p: Seq<i32>| in_box(p, lb, ub));
}

/// Bulk construction is defined on every single point: a one-point
/// collection is buildable whatever the starting axis, so the only
/// one-level obstacle to building is a tie on the sort axis between the
/// median and its predecessor.
pub proof fn lemma_buildable_singleton(s: Seq<Seq<i32>>, a: int)
    requires
        s.len() == 1,
    ensures
        buildable(s, a),
{
    assert(is_lex_sorted_perm(s, s, a));
    assert(buildable(s.subrange(0, 0), (a + 1) % 2));
    assert(buildable(s.subrange(1, 1), (a + 1) % 2));
}

/// The bounds `[i32::MIN, i32::MIN]` to `[i32::MAX, i32::MAX]` cover every
/// 2-dimensional point, so they are all-covering bounds for the law above.
pub proof fn lemma_extreme_bounds_cover(p: Seq<i32>)
    requires
        p.len() == 2,
    ensures
        in_box(p, seq![i32::MIN, i32::MIN], seq![i32::MAX, i32::MAX]),
{
}

} // verus!
