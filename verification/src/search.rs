//! The exhaustive search: every visiting order is measured, the shortest kept.

use vstd::prelude::*;
use crate::permutation::{
    insertion_perms, is_permutation, lemma_enumeration_complete, lemma_rank_of, permutations,
    tours_view,
};
use crate::record::{
    initial_record, is_shortest, lemma_record_is_shortest, record_after, BestTour, BestTourView,
};
use crate::tour::{closed_legs, tour_legs};

verus! {

/// `key` is what `length_key` may return for the closed tour through `order`.
pub open spec fn measures<F: Fn(&Vec<(usize, usize)>) -> u64>(
    length_key: F,
    order: Seq<usize>,
    key: u64,
) -> bool {
    exists|legs: Vec<(usize, usize)>|
        legs@ == closed_legs(order) && #[trigger] call_ensures(length_key, (&legs,), key)
}

/// `tours` pairs every one of `orders`, in the same sequence, with a key that
/// `length_key` may return for it.
pub open spec fn measured_all<F: Fn(&Vec<(usize, usize)>) -> u64>(
    length_key: F,
    orders: Seq<Seq<usize>>,
    tours: Seq<(u64, Seq<usize>)>,
) -> bool {
    &&& tours.len() == orders.len()
    &&& forall|i: int|
        0 <= i < tours.len() ==> (#[trigger] tours[i]).1 == orders[i] && measures(
            length_key,
            orders[i],
            tours[i].0,
        )
}

/// What has been offered to a record so far decides what it holds.
proof fn lemma_record_prefix(
    bound: u64,
    a: Seq<(u64, Seq<usize>)>,
    b: Seq<(u64, Seq<usize>)>,
    k: nat,
)
    requires
        k <= a.len(),
        k <= b.len(),
        forall|i: int| 0 <= i < k ==> a[i] == b[i],
    ensures
        record_after(bound, a, k) == record_after(bound, b, k),
    decreases k,
{
    if k > 0 {
        lemma_record_prefix(bound, a, b, (k - 1) as nat);
    }
}

/// The search is exhaustive: where every visiting order of `n` points has
/// been measured, no closed tour through the `n` points has a key below the
/// one chosen, and the one chosen is not above the bound.
pub proof fn lemma_search_is_optimal(
    n: usize,
    bound: u64,
    tours: Seq<(u64, Seq<usize>)>,
    best: BestTourView,
    order: Seq<usize>,
) -> (i: int)
    requires
        tours.len() == insertion_perms(n).len(),
        forall|i: int| 0 <= i < tours.len() ==> (#[trigger] tours[i]).1 == insertion_perms(n)[i],
        is_shortest(bound, tours, best),
        is_permutation(order, n),
    ensures
        0 <= i < tours.len(),
        tours[i].1 == order,
        best.length_key <= tours[i].0,
        best.length_key <= bound,
{
    lemma_rank_of(order, n)
}

/// What the search chooses is a visiting order of the `n` points, unless no
/// tour came in below the bound.
pub proof fn lemma_choice_is_tour(
    n: usize,
    bound: u64,
    tours: Seq<(u64, Seq<usize>)>,
    best: BestTourView,
)
    requires
        tours.len() == insertion_perms(n).len(),
        forall|i: int| 0 <= i < tours.len() ==> (#[trigger] tours[i]).1 == insertion_perms(n)[i],
        is_shortest(bound, tours, best),
    ensures
        best.length_key <= bound,
        best == initial_record(bound) || is_permutation(best.order, n),
{
    lemma_enumeration_complete(n);
}

/// The shortest closed tour through `n` points.
///
/// Every visiting order of the points is taken in turn, in the sequence of
/// [`permutations`]; `length_key` is asked for the key of the length of its
/// closed tour, given the legs of that tour; and the tour is offered to a
/// record that starts at `bound`. The result is the first of the tours with
/// the smallest key that `length_key` returned, if that key is below `bound`,
/// and `bound` with an empty visiting order otherwise.
///
/// `length_key` has to accept the legs of every closed tour through the `n`
/// points; it is called once for each visiting order.
pub fn brute_force_tsp<F: Fn(&Vec<(usize, usize)>) -> u64>(
    n: usize,
    bound: u64,
    length_key: F,
) -> (best: BestTour)
    requires
        forall|legs: &Vec<(usize, usize)>, order: Seq<usize>|
            #![trigger is_permutation(order, n), call_requires(length_key, (legs,))]
            is_permutation(order, n) && legs@ == closed_legs(order) ==> call_requires(
                length_key,
                (legs,),
            ),
    ensures
        exists|tours: Seq<(u64, Seq<usize>)>|
            #![trigger measured_all(length_key, insertion_perms(n), tours)]
            measured_all(length_key, insertion_perms(n), tours) && is_shortest(
                bound,
                tours,
                best@,
            ),
        best.length_key <= bound,
        best@ == initial_record(bound) || is_permutation(best@.order, n),
{
    let perms = permutations(n);
    let mut best = BestTour::new(bound);
    let ghost mut tours: Seq<(u64, Seq<usize>)> = Seq::empty();
    let mut k: usize = 0;
    while k < perms.len()
        invariant
            k <= perms.len(),
            tours_view(perms@) == insertion_perms(n),
            forall|i: int| 0 <= i < perms.len() ==> is_permutation((#[trigger] perms[i])@, n),
            forall|legs: &Vec<(usize, usize)>, order: Seq<usize>|
                #![trigger is_permutation(order, n), call_requires(length_key, (legs,))]
                is_permutation(order, n) && legs@ == closed_legs(order) ==> call_requires(
                    length_key,
                    (legs,),
                ),
            tours.len() == k,
            forall|i: int|
                0 <= i < k ==> (#[trigger] tours[i]).1 == perms[i]@ && measures(
                    length_key,
                    perms[i]@,
                    tours[i].0,
                ),
            best@ == record_after(bound, tours, k as nat),
        decreases perms.len() - k,
    {
        let legs = tour_legs(&perms[k]);
        let key = length_key(&legs);
        proof {
            let seen = tours;
            tours = tours.push((key, perms[k as int]@));
            lemma_record_prefix(bound, seen, tours, k as nat);
        }
        best.offer(key, &perms[k]);
        k += 1;
    }
    proof {
        lemma_record_is_shortest(bound, tours, k as nat);
        assert(tours.take(k as int) =~= tours);
        assert(measured_all(length_key, insertion_perms(n), tours));
        lemma_choice_is_tour(n, bound, tours, best@);
    }
    best
}

} // verus!
