//! The legs of a closed tour, and what leaves its length unchanged.
//!
//! A tour visits the points in the order given and then returns to where it
//! started. Its legs are the pairs of points travelled between: one for each
//! step of the order, and one that closes the loop. The length of a tour is
//! the sum of a weight over its legs; the laws below hold for every weight.

use vstd::prelude::*;
use crate::permutation::is_permutation;

verus! {

/// The position that follows `i` on a loop through `n` positions.
pub open spec fn next_position(i: int, n: int) -> int {
    if i + 1 < n {
        i + 1
    } else {
        0
    }
}

/// The legs of the closed tour that visits the points in `order`: leg `i`
/// goes from the point at position `i` to the point at the next position, and
/// the last leg goes from the last point back to the first. No points, no
/// legs; one point gives one leg from that point to itself.
pub open spec fn closed_legs(order: Seq<usize>) -> Seq<(usize, usize)> {
    Seq::new(
        order.len(),
        |i: int| (order[i], order[next_position(i, order.len() as int)]),
    )
}

/// Both ends of every leg are points below `n`.
pub open spec fn legs_below(legs: Seq<(usize, usize)>, n: usize) -> bool {
    forall|i: int| 0 <= i < legs.len() ==> (#[trigger] legs[i]).0 < n && legs[i].1 < n
}

/// The sum of `weight` over `legs`, added up from the first leg to the last.
pub open spec fn legs_weight(
    weight: spec_fn(usize, usize) -> real,
    legs: Seq<(usize, usize)>,
) -> real
    decreases legs.len(),
{
    if legs.len() == 0 {
        0real
    } else {
        legs_weight(weight, legs.drop_last()) + weight(legs.last().0, legs.last().1)
    }
}

/// The length of the closed tour through `order` when a leg from `a` to `b`
/// is `weight(a, b)` long.
pub open spec fn tour_weight(weight: spec_fn(usize, usize) -> real, order: Seq<usize>) -> real {
    legs_weight(weight, closed_legs(order))
}

/// A leg is as long in one direction as in the other.
pub open spec fn symmetric(weight: spec_fn(usize, usize) -> real) -> bool {
    forall|a: usize, b: usize| #[trigger] weight(a, b) == weight(b, a)
}

/// The sequence `s` started at position `k` and continued from its beginning.
pub open spec fn rotated<A>(s: Seq<A>, k: int) -> Seq<A> {
    s.subrange(k, s.len() as int) + s.subrange(0, k)
}

/// Every leg of `legs` travelled the other way.
pub open spec fn flipped(legs: Seq<(usize, usize)>) -> Seq<(usize, usize)> {
    Seq::new(legs.len(), |i: int| (legs[i].1, legs[i].0))
}

proof fn lemma_weight_concat(
    weight: spec_fn(usize, usize) -> real,
    a: Seq<(usize, usize)>,
    b: Seq<(usize, usize)>,
)
    ensures
        legs_weight(weight, a + b) == legs_weight(weight, a) + legs_weight(weight, b),
    decreases b.len(),
{
    if b.len() > 0 {
        assert((a + b).drop_last() =~= a + b.drop_last());
        lemma_weight_concat(weight, a, b.drop_last());
    }
}

proof fn lemma_weight_single(weight: spec_fn(usize, usize) -> real, leg: (usize, usize))
    ensures
        legs_weight(weight, seq![leg]) == weight(leg.0, leg.1),
{
    assert(legs_weight(weight, seq![leg].drop_last()) == 0real);
}

proof fn lemma_weight_reverse(weight: spec_fn(usize, usize) -> real, legs: Seq<(usize, usize)>)
    ensures
        legs_weight(weight, legs.reverse()) == legs_weight(weight, legs),
    decreases legs.len(),
{
    if legs.len() > 0 {
        let head = seq![legs.last()];
        assert(legs.reverse() =~= head + legs.drop_last().reverse());
        lemma_weight_concat(weight, head, legs.drop_last().reverse());
        lemma_weight_single(weight, legs.last());
        lemma_weight_reverse(weight, legs.drop_last());
    }
}

proof fn lemma_weight_flipped(weight: spec_fn(usize, usize) -> real, legs: Seq<(usize, usize)>)
    requires
        symmetric(weight),
    ensures
        legs_weight(weight, flipped(legs)) == legs_weight(weight, legs),
    decreases legs.len(),
{
    if legs.len() > 0 {
        assert(flipped(legs).drop_last() =~= flipped(legs.drop_last()));
        lemma_weight_flipped(weight, legs.drop_last());
    }
}

/// A tour started at another of its points has the same legs, started at the
/// corresponding leg.
pub proof fn lemma_rotation_keeps_legs(order: Seq<usize>, k: int)
    requires
        0 <= k <= order.len(),
    ensures
        closed_legs(rotated(order, k)) == rotated(closed_legs(order), k),
{
}

/// A tour travelled backwards has the legs of the tour itself, each the other
/// way round: those before the closing leg in reverse, then the closing leg.
pub proof fn lemma_reversal_flips_legs(order: Seq<usize>)
    requires
        order.len() > 0,
    ensures
        closed_legs(order.reverse()) == flipped(closed_legs(order).drop_last()).reverse().push(
            (order[0], order.last()),
        ),
{
    assert(closed_legs(order.reverse()) =~= flipped(
        closed_legs(order).drop_last(),
    ).reverse().push((order[0], order.last())));
}

/// Rotating a visiting order leaves the length of the closed tour unchanged,
/// whatever the length of a leg is.
pub proof fn lemma_rotation_keeps_length(
    weight: spec_fn(usize, usize) -> real,
    order: Seq<usize>,
    k: int,
)
    requires
        0 <= k <= order.len(),
    ensures
        tour_weight(weight, rotated(order, k)) == tour_weight(weight, order),
{
    let legs = closed_legs(order);
    let front = legs.subrange(0, k);
    let back = legs.subrange(k, legs.len() as int);
    lemma_rotation_keeps_legs(order, k);
    lemma_weight_concat(weight, back, front);
    lemma_weight_concat(weight, front, back);
    assert(front + back =~= legs);
}

/// Reversing a visiting order leaves the length of the closed tour unchanged
/// where a leg is as long in one direction as in the other.
pub proof fn lemma_reversal_keeps_length(weight: spec_fn(usize, usize) -> real, order: Seq<usize>)
    requires
        symmetric(weight),
    ensures
        tour_weight(weight, order.reverse()) == tour_weight(weight, order),
{
    if order.len() > 0 {
        let before = closed_legs(order).drop_last();
        let back = flipped(before).reverse().push((order[0], order.last()));
        lemma_reversal_flips_legs(order);
        assert(back.drop_last() =~= flipped(before).reverse());
        lemma_weight_reverse(weight, flipped(before));
        lemma_weight_flipped(weight, before);
    }
}

/// Through three points every closed tour is the triangle: its length is the
/// sum of the three sides, whichever visiting order is taken.
pub proof fn lemma_triangle_length(weight: spec_fn(usize, usize) -> real, order: Seq<usize>)
    requires
        symmetric(weight),
        is_permutation(order, 3),
    ensures
        tour_weight(weight, order) == weight(0, 1) + weight(1, 2) + weight(2, 0),
{
    // Leg by leg, the tour is as long as the three legs that it travels.
    let legs = closed_legs(order);
    let two = legs.drop_last();
    let one = two.drop_last();
    assert(legs_weight(weight, one.drop_last()) == 0real);
    assert(legs_weight(weight, one) == weight(order[0], order[1]));
    assert(legs_weight(weight, two) == legs_weight(weight, one) + weight(order[1], order[2]));
    assert(legs_weight(weight, legs) == legs_weight(weight, two) + weight(order[2], order[0]));
}

/// The legs of a tour form one loop: there are as many legs as entries in
/// the visiting order, leg `i` starts at the point at position `i`, and every
/// leg ends where the next one starts, the last leg where the first one
/// starts.
pub proof fn lemma_legs_form_loop(order: Seq<usize>)
    ensures
        closed_legs(order).len() == order.len(),
        forall|i: int| 0 <= i < order.len() ==> (#[trigger] closed_legs(order)[i]).0 == order[i],
        forall|i: int|
            0 <= i < order.len() ==> (#[trigger] closed_legs(order)[i]).1 == closed_legs(
                order,
            )[next_position(i, order.len() as int)].0,
{
}

/// The legs of a visiting order of `n` points run between points below `n`.
pub proof fn lemma_legs_below(order: Seq<usize>, n: usize)
    requires
        forall|i: int| 0 <= i < order.len() ==> #[trigger] order[i] < n,
    ensures
        legs_below(closed_legs(order), n),
{
}

/// The legs of the closed tour that visits the points in `order`, in the
/// order in which they are travelled; the leg that closes the loop comes last.
pub fn tour_legs(order: &Vec<usize>) -> (legs: Vec<(usize, usize)>)
    ensures
        legs@ == closed_legs(order@),
{
    let n = order.len();
    let mut legs: Vec<(usize, usize)> = Vec::new();
    if n == 0 {
        return legs;
    }
    let mut i: usize = 0;
    while i < n - 1
        invariant
            n == order.len(),
            n > 0,
            i <= n - 1,
            legs.len() == i,
            forall|k: int| 0 <= k < i ==> #[trigger] legs[k] == (order[k], order[k + 1]),
        decreases n - i,
    {
        legs.push((order[i], order[i + 1]));
        i += 1;
    }
    legs.push((order[n - 1], order[0]));
    legs
}

} // verus!
