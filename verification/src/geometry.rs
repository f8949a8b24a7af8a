//! Spec-level geometry over 2-dimensional integer points, and the small
//! arithmetic lemmas the tree algorithms rely on.
use vstd::arithmetic::div_mod::lemma_fundamental_div_mod;
use vstd::arithmetic::mul::lemma_mul_inequality;
use vstd::prelude::*;

verus! {

/// The square of an integer.
pub open spec fn sq(x: int) -> int {
    x * x
}

/// Squared Euclidean distance between two 2-dimensional points.
pub open spec fn dist_sq(p: Seq<i32>, q: Seq<i32>) -> int {
    sq(p[0] - q[0]) + sq(p[1] - q[1])
}

/// Membership in the open disk of (rational) radius `num / den` around `center`:
/// squared distance strictly below the squared radius, cleared of denominators.
pub open spec fn in_circle(p: Seq<i32>, center: Seq<i32>, num: int, den: int) -> bool {
    dist_sq(p, center) * sq(den) < sq(num)
}

/// Membership in the axis-aligned box `[lb[0], ub[0]] x [lb[1], ub[1]]`
/// (both ends inclusive on every axis).
pub open spec fn in_box(p: Seq<i32>, lb: Seq<i32>, ub: Seq<i32>) -> bool {
    &&& lb[0] <= p[0] <= ub[0]
    &&& lb[1] <= p[1] <= ub[1]
}

/// Every point of `ps` has a coordinate at axis `a` strictly below `v`.
pub open spec fn all_lt(ps: Seq<Seq<i32>>, a: int, v: int) -> bool {
    forall|p: Seq<i32>| #[trigger] ps.contains(p) ==> p[a] < v
}

/// Every point of `ps` has a coordinate at axis `a` at least `v`.
pub open spec fn all_ge(ps: Seq<Seq<i32>>, a: int, v: int) -> bool {
    forall|p: Seq<i32>| #[trigger] ps.contains(p) ==> p[a] >= v
}

/// Every element of `ps` is a 2-dimensional point.
pub open spec fn all_len2(ps: Seq<Seq<i32>>) -> bool {
    forall|p: Seq<i32>| #[trigger] ps.contains(p) ==> p.len() == 2
}

pub proof fn lemma_sq_nonneg(x: int)
    ensures
        sq(x) >= 0,
{
    assert(x * x >= 0) by (nonlinear_arith);
}

pub proof fn lemma_sq_monotone(a: int, b: int)
    requires
        0 <= a <= b,
    ensures
        sq(a) <= sq(b),
{
    assert(a * a <= b * b) by (nonlinear_arith)
        requires
            0 <= a <= b,
    ;
}

pub proof fn lemma_sq_ge_self(a: int)
    requires
        a >= 0,
    ensures
        sq(a) >= a,
{
    assert(a * a >= a) by (nonlinear_arith)
        requires
            a >= 0,
    ;
}

pub proof fn lemma_sq_of_neg(a: int)
    ensures
        sq(-a) == sq(a),
{
    assert((-a) * (-a) == a * a) by (nonlinear_arith);
}

pub proof fn lemma_sq_distributes(a: int, b: int)
    ensures
        sq(a * b) == sq(a) * sq(b),
{
    assert((a * b) * (a * b) == (a * a) * (b * b)) by (nonlinear_arith);
}

/// The squared distance dominates the squared gap on either single axis.
pub proof fn lemma_dist_axis_bound(p: Seq<i32>, q: Seq<i32>, a: int)
    requires
        0 <= a < 2,
    ensures
        dist_sq(p, q) >= sq(p[a] - q[a]),
{
    lemma_sq_nonneg(p[0] - q[0]);
    lemma_sq_nonneg(p[1] - q[1]);
}

/// For non-negative integers, `a * b < c` is a division test: `a <= (c - 1) / b`.
pub proof fn lemma_ratio_lt(a: int, b: int, c: int)
    requires
        a >= 0,
        b > 0,
        c > 0,
    ensures
        (a * b < c) <==> (a <= (c - 1) / b),
{
    let q = (c - 1) / b;
    let r = (c - 1) % b;
    lemma_fundamental_div_mod(c - 1, b);
    if a <= q {
        lemma_mul_inequality(a, q, b);
        assert(a * b <= q * b);
    } else {
        lemma_mul_inequality(q + 1, a, b);
        assert((q + 1) * b <= a * b);
        assert((q + 1) * b == q * b + b) by (nonlinear_arith);
    }
}

/// A product of values below the given bounds stays below the bounds' product.
pub proof fn lemma_mul_bounds(x: int, y: int, bx: int, by: int)
    requires
        0 <= x <= bx,
        0 <= y <= by,
    ensures
        0 <= x * y <= bx * by,
{
    assert(0 <= x * y && x * y <= bx * by) by (nonlinear_arith)
        requires
            0 <= x <= bx,
            0 <= y <= by,
    ;
}

/// Membership in a concatenation splits into membership in the parts.
pub proof fn lemma_concat_contains(a: Seq<Seq<i32>>, b: Seq<Seq<i32>>, x: Seq<i32>)
    ensures
        (a + b).contains(x) <==> a.contains(x) || b.contains(x),
{
    if (a + b).contains(x) {
        let i = choose|i: int| 0 <= i < (a + b).len() && (a + b)[i] == x;
        if i < a.len() {
            assert(a[i] == x);
        } else {
            assert(b[i - a.len()] == x);
        }
    }
    if a.contains(x) {
        let i = choose|i: int| 0 <= i < a.len() && a[i] == x;
        assert((a + b)[i] == x);
    }
    if b.contains(x) {
        let i = choose|i: int| 0 <= i < b.len() && b[i] == x;
        assert((a + b)[a.len() + i] == x);
    }
}

/// `t` is `s` sorted by the coordinate at `axis`: the same points as a
/// multiset, in non-decreasing coordinate order. When no two points of `s`
/// share a coordinate at `axis` there is exactly one such `t`.
pub open spec fn is_sorted_perm(t: Seq<Seq<i32>>, s: Seq<Seq<i32>>, axis: int) -> bool {
    &&& t.len() == s.len()
    &&& t.to_multiset() == s.to_multiset()
    &&& forall|i: int, j: int|
        #![trigger t[i], t[j]]
        0 <= i <= j < t.len() ==> t[i][axis] <= t[j][axis]
}

/// Lexicographic comparison of 2-dimensional points: by the coordinate at
/// `a` first, ties by the other coordinate. A total order on such points;
/// sorting by it makes the balanced build deterministic.
pub open spec fn lex_le(p: Seq<i32>, q: Seq<i32>, a: int) -> bool {
    ||| p[a] < q[a]
    ||| (p[a] == q[a] && p[1 - a] <= q[1 - a])
}

/// `t` is `s` sorted lexicographically for axis `a`: the same points as a
/// multiset, in `lex_le` order. For each multiset there is exactly one such
/// `t` (`lemma_lex_sorted_unique`).
pub open spec fn is_lex_sorted_perm(t: Seq<Seq<i32>>, s: Seq<Seq<i32>>, a: int) -> bool {
    &&& t.len() == s.len()
    &&& t.to_multiset() == s.to_multiset()
    &&& forall|i: int, j: int| #![trigger t[i], t[j]] 0 <= i <= j < t.len() ==> lex_le(t[i], t[j], a)
}

/// Whether the balanced build succeeds on `s` with sort axis `a`: nothing
/// to build, or, in the lexicographically sorted arrangement, everything
/// before the lower median lies strictly below it at the sort axis (so the
/// strict left-partition rule can hold) and both halves build in turn with
/// the next axis. Fails exactly when at some recursion level the point just
/// before the median shares the median's coordinate on that level's axis.
pub open spec fn buildable(s: Seq<Seq<i32>>, a: int) -> bool
    decreases s.len(),
{
    s.len() == 0 || exists|t: Seq<Seq<i32>>|
        {
            &&& #[trigger] is_lex_sorted_perm(t, s, a)
            &&& (s.len() as int / 2 == 0 || t[s.len() as int / 2 - 1][a] < t[s.len() as int / 2][a])
            &&& buildable(t.subrange(0, s.len() as int / 2), (a + 1) % 2)
            &&& buildable(t.subrange(s.len() as int / 2 + 1, s.len() as int), (a + 1) % 2)
        }
}

/// Input on which balanced bulk construction is defined: at least one
/// point, every point 2-dimensional, and the median split achievable at
/// every recursion level (`buildable`).
pub open spec fn valid_build_input(s: Seq<Seq<i32>>, a: int) -> bool {
    &&& s.len() > 0
    &&& all_len2(s)
    &&& buildable(s, a)
}

/// `lex_le` is antisymmetric on 2-dimensional points.
pub proof fn lemma_lex_antisym(p: Seq<i32>, q: Seq<i32>, a: int)
    requires
        0 <= a < 2,
        p.len() == 2,
        q.len() == 2,
        lex_le(p, q, a),
        lex_le(q, p, a),
    ensures
        p == q,
{
    assert(p =~= q);
}

/// There is at most one lexicographically sorted arrangement of a multiset
/// of 2-dimensional points.
pub proof fn lemma_lex_sorted_unique(s1: Seq<Seq<i32>>, s2: Seq<Seq<i32>>, a: int)
    requires
        0 <= a < 2,
        all_len2(s1),
        all_len2(s2),
        s1.to_multiset() == s2.to_multiset(),
        forall|i: int, j: int| #![trigger s1[i], s1[j]] 0 <= i <= j < s1.len() ==> lex_le(s1[i], s1[j], a),
        forall|i: int, j: int| #![trigger s2[i], s2[j]] 0 <= i <= j < s2.len() ==> lex_le(s2[i], s2[j], a),
    ensures
        s1 == s2,
    decreases s1.len(),
{
    broadcast use vstd::seq_lib::group_to_multiset_ensures;

    s1.to_multiset_ensures();
    s2.to_multiset_ensures();
    if s1.len() == 0 {
        assert(s2.len() == 0);
        assert(s1 =~= s2);
    } else {
        assert(s2.len() == s1.len());
        // The two heads are each a lexicographic minimum of the same
        // multiset, so they are equal.
        assert(s1.contains(s1[0]));
        assert(s2.contains(s2[0]));
        assert(s1.to_multiset().count(s2[0]) > 0);
        assert(s2.to_multiset().count(s1[0]) > 0);
        assert(s1.contains(s2[0]));
        assert(s2.contains(s1[0]));
        let k = choose|k: int| 0 <= k < s1.len() && s1[k] == s2[0];
        let l = choose|l: int| 0 <= l < s2.len() && s2[l] == s1[0];
        assert(lex_le(s1[0], s1[k], a));
        assert(lex_le(s2[0], s2[l], a));
        lemma_lex_antisym(s1[0], s2[0], a);
        // The tails are sorted arrangements of the multiset minus that head.
        vstd::seq_lib::to_multiset_remove(s1, 0);
        vstd::seq_lib::to_multiset_remove(s2, 0);
        let t1 = s1.remove(0);
        let t2 = s2.remove(0);
        assert forall|p: Seq<i32>| #[trigger] t1.contains(p) implies p.len() == 2 by {
            let i = choose|i: int| 0 <= i < t1.len() && t1[i] == p;
            assert(s1[i + 1] == p);
            assert(s1.contains(p));
        }
        assert forall|p: Seq<i32>| #[trigger] t2.contains(p) implies p.len() == 2 by {
            let i = choose|i: int| 0 <= i < t2.len() && t2[i] == p;
            assert(s2[i + 1] == p);
            assert(s2.contains(p));
        }
        assert forall|i: int, j: int|
            #![trigger t1[i], t1[j]]
            0 <= i <= j < t1.len() implies lex_le(t1[i], t1[j], a) by {
            assert(t1[i] == s1[i + 1]);
            assert(t1[j] == s1[j + 1]);
        }
        assert forall|i: int, j: int|
            #![trigger t2[i], t2[j]]
            0 <= i <= j < t2.len() implies lex_le(t2[i], t2[j], a) by {
            assert(t2[i] == s2[i + 1]);
            assert(t2[j] == s2[j + 1]);
        }
        lemma_lex_sorted_unique(t1, t2, a);
        assert(s1 =~= s2) by {
            assert forall|i: int| 0 < i < s1.len() implies s1[i] == s2[i] by {
                assert(t1[i - 1] == s1[i]);
                assert(t2[i - 1] == s2[i]);
            }
        }
    }
}

/// Filtering keeps nothing when no element satisfies the predicate.
pub proof fn lemma_filter_all_false(s: Seq<Seq<i32>>, pred: spec_fn(Seq<i32>) -> bool)
    requires
        forall|p: Seq<i32>| #[trigger] s.contains(p) ==> !pred(p),
    ensures
        s.filter(pred) == Seq::<Seq<i32>>::empty(),
    decreases s.len(),
{
    reveal(Seq::filter);
    if s.len() == 0 {
        assert(s.filter(pred) =~= Seq::<Seq<i32>>::empty());
    } else {
        assert(s.contains(s.last())) by {
            assert(s[s.len() - 1] == s.last());
        }
        assert(forall|p: Seq<i32>| #[trigger] s.drop_last().contains(p) ==> s.contains(p)) by {
            assert forall|p: Seq<i32>| #[trigger] s.drop_last().contains(p) implies s.contains(p) by {
                let i = choose|i: int| 0 <= i < s.drop_last().len() && s.drop_last()[i] == p;
                assert(s[i] == p);
            }
        }
        lemma_filter_all_false(s.drop_last(), pred);
    }
}

/// Filtering keeps everything when every element satisfies the predicate.
pub proof fn lemma_filter_all_true(s: Seq<Seq<i32>>, pred: spec_fn(Seq<i32>) -> bool)
    requires
        forall|p: Seq<i32>| #[trigger] s.contains(p) ==> pred(p),
    ensures
        s.filter(pred) == s,
    decreases s.len(),
{
    reveal(Seq::filter);
    if s.len() == 0 {
        assert(s.filter(pred) =~= s);
    } else {
        assert(s.contains(s.last())) by {
            assert(s[s.len() - 1] == s.last());
        }
        assert(forall|p: Seq<i32>| #[trigger] s.drop_last().contains(p) ==> s.contains(p)) by {
            assert forall|p: Seq<i32>| #[trigger] s.drop_last().contains(p) implies s.contains(p) by {
                let i = choose|i: int| 0 <= i < s.drop_last().len() && s.drop_last()[i] == p;
                assert(s[i] == p);
            }
        }
        lemma_filter_all_true(s.drop_last(), pred);
        assert(s.filter(pred) =~= s) by {
            assert(s.drop_last().push(s.last()) =~= s);
        }
    }
}

/// Filtering a singleton keeps it exactly when its element satisfies the predicate.
pub proof fn lemma_filter_singleton(x: Seq<i32>, pred: spec_fn(Seq<i32>) -> bool)
    ensures
        seq![x].filter(pred) == if pred(x) {
            seq![x]
        } else {
            Seq::<Seq<i32>>::empty()
        },
{
    reveal(Seq::filter);
    assert(seq![x].drop_last() =~= Seq::<Seq<i32>>::empty());
    assert(Seq::<Seq<i32>>::empty().filter(pred) =~= Seq::<Seq<i32>>::empty());
    if pred(x) {
        assert(seq![x].filter(pred) =~= seq![x]);
    } else {
        assert(seq![x].filter(pred) =~= Seq::<Seq<i32>>::empty());
    }
}

} // verus!
