//! The best tour seen so far, and the choice of the shortest among many.
//!
//! The length of a tour enters as a key: an unsigned number that is smaller
//! exactly when the tour is shorter. The record starts at a bound with no tour
//! in it, and takes a tour only when its key is strictly below the key that
//! the record holds. Of several tours with the same key the first one stays.

use vstd::prelude::*;

verus! {

/// The shortest tour found so far, with the key of its length.
#[derive(Debug)]
pub struct BestTour {
    /// The key of the shortest length so far, or the bound that the record
    /// started at while no tour has come in below it.
    pub length_key: u64,
    /// The visiting order of that tour; empty while the record holds none.
    pub order: Vec<usize>,
}

/// What a record holds, as plain values.
pub struct BestTourView {
    /// The key in the record.
    pub length_key: u64,
    /// The visiting order in the record.
    pub order: Seq<usize>,
}

impl View for BestTour {
    type V = BestTourView;

    open spec fn view(&self) -> BestTourView {
        BestTourView { length_key: self.length_key, order: self.order@ }
    }
}

/// The record before any tour has been offered to it.
pub open spec fn initial_record(bound: u64) -> BestTourView {
    BestTourView { length_key: bound, order: Seq::empty() }
}

/// The record after a tour with the given key has been offered to it.
pub open spec fn offered(record: BestTourView, key: u64, order: Seq<usize>) -> BestTourView {
    if key < record.length_key {
        BestTourView { length_key: key, order }
    } else {
        record
    }
}

/// The record after the first `k` of `tours` have been offered in turn.
pub open spec fn record_after(bound: u64, tours: Seq<(u64, Seq<usize>)>, k: nat) -> BestTourView
    decreases k,
{
    if k == 0 {
        initial_record(bound)
    } else {
        offered(record_after(bound, tours, (k - 1) as nat), tours[k - 1].0, tours[k - 1].1)
    }
}

/// Tour `i` is the one to choose: its key is below the bound, no tour has a
/// smaller key, and every tour before it has a larger one.
pub open spec fn is_first_shortest(bound: u64, tours: Seq<(u64, Seq<usize>)>, i: int) -> bool {
    &&& 0 <= i < tours.len()
    &&& tours[i].0 < bound
    &&& forall|j: int| 0 <= j < tours.len() ==> tours[i].0 <= (#[trigger] tours[j]).0
    &&& forall|j: int| 0 <= j < i ==> tours[i].0 < (#[trigger] tours[j]).0
}

/// `best` is the outcome of choosing among `tours`: the first of the tours
/// with the smallest key, if that key is below the bound; otherwise the bound
/// and no tour.
pub open spec fn is_shortest(
    bound: u64,
    tours: Seq<(u64, Seq<usize>)>,
    best: BestTourView,
) -> bool {
    ||| {
        &&& forall|j: int| 0 <= j < tours.len() ==> bound <= (#[trigger] tours[j]).0
        &&& best == initial_record(bound)
    }
    ||| exists|i: int|
        {
            &&& #[trigger] is_first_shortest(bound, tours, i)
            &&& best.length_key == tours[i].0
            &&& best.order == tours[i].1
        }
}

/// The keys and visiting orders that a list of measured tours holds.
pub open spec fn measured_view(tours: Seq<(u64, Vec<usize>)>) -> Seq<(u64, Seq<usize>)> {
    Seq::new(tours.len(), |i: int| (tours[i].0, tours[i].1@))
}

/// Offering tours one after another chooses the first shortest among them.
pub proof fn lemma_record_is_shortest(bound: u64, tours: Seq<(u64, Seq<usize>)>, k: nat)
    requires
        k <= tours.len(),
    ensures
        is_shortest(bound, tours.take(k as int), record_after(bound, tours, k)),
    decreases k,
{
    if k > 0 {
        let seen = tours.take(k as int);
        let before = tours.take(k - 1);
        let was = record_after(bound, tours, (k - 1) as nat);
        lemma_record_is_shortest(bound, tours, (k - 1) as nat);
        if tours[k - 1].0 < was.length_key {
            // The tour offered last is shorter than all before it.
            assert(is_first_shortest(bound, seen, k - 1));
        } else if exists|i: int| is_first_shortest(bound, before, i) {
            // The tour chosen before stays the first shortest.
            let i = choose|i: int|
                #![trigger is_first_shortest(bound, before, i)]
                is_first_shortest(bound, before, i) && was.length_key == before[i].0
                    && was.order == before[i].1;
            assert(is_first_shortest(bound, seen, i));
        }
    }
}

/// The outcome of choosing among given tours is determined.
pub proof fn lemma_shortest_unique(
    bound: u64,
    tours: Seq<(u64, Seq<usize>)>,
    a: BestTourView,
    b: BestTourView,
)
    requires
        is_shortest(bound, tours, a),
        is_shortest(bound, tours, b),
    ensures
        a == b,
{
}

/// One offer: the key in the record does not grow; it falls exactly when the
/// tour offered has a smaller key than the record; and on any other tour, one
/// of equal key too, the record stays as it is.
pub proof fn lemma_offer_step(bound: u64, tours: Seq<(u64, Seq<usize>)>, k: nat)
    requires
        k < tours.len(),
    ensures
        record_after(bound, tours, k + 1).length_key <= record_after(bound, tours, k).length_key,
        record_after(bound, tours, k + 1).length_key < record_after(bound, tours, k).length_key
            <==> tours[k as int].0 < record_after(bound, tours, k).length_key,
        tours[k as int].0 >= record_after(bound, tours, k).length_key ==> record_after(
            bound,
            tours,
            k + 1,
        ) == record_after(bound, tours, k),
{
}

/// While tours are offered, the key in the record never grows, and it never
/// exceeds the bound that the record started at.
pub proof fn lemma_record_monotone(bound: u64, tours: Seq<(u64, Seq<usize>)>, j: nat, k: nat)
    requires
        j <= k <= tours.len(),
    ensures
        record_after(bound, tours, k).length_key <= record_after(bound, tours, j).length_key,
        record_after(bound, tours, k).length_key <= bound,
    decreases k,
{
    if k > 0 {
        let from = if j < k { j } else { 0 };
        lemma_record_monotone(bound, tours, from, (k - 1) as nat);
    }
}

impl BestTour {
    /// A record that holds no tour yet and takes only tours with a key below
    /// `bound`.
    pub fn new(bound: u64) -> (record: BestTour)
        ensures
            record@ == initial_record(bound),
    {
        BestTour { length_key: bound, order: Vec::new() }
    }

    /// Offers a tour to the record. The record takes it, and the result is
    /// `true`, exactly when `key` is strictly below the key in the record;
    /// otherwise the record stays as it was.
    pub fn offer(&mut self, key: u64, order: &Vec<usize>) -> (improved: bool)
        ensures
            improved == (key < old(self).length_key),
            final(self)@ == offered(old(self)@, key, order@),
            final(self).length_key <= old(self).length_key,
            !improved ==> *final(self) == *old(self),
    {
        if key < self.length_key {
            self.length_key = key;
            self.order = order.clone();
            true
        } else {
            false
        }
    }
}

/// The shortest of the given tours, each with the key of its length.
///
/// The result holds the first of the tours with the smallest key, if that key
/// is below `bound`; otherwise it holds `bound` and an empty visiting order.
pub fn select_shortest(bound: u64, tours: &Vec<(u64, Vec<usize>)>) -> (best: BestTour)
    ensures
        is_shortest(bound, measured_view(tours@), best@),
        best@ == record_after(bound, measured_view(tours@), tours.len() as nat),
{
    let ghost all = measured_view(tours@);
    let mut best = BestTour::new(bound);
    let mut k: usize = 0;
    while k < tours.len()
        invariant
            k <= tours.len(),
            all == measured_view(tours@),
            best@ == record_after(bound, all, k as nat),
        decreases tours.len() - k,
    {
        best.offer(tours[k].0, &tours[k].1);
        k += 1;
    }
    proof {
        lemma_record_is_shortest(bound, all, k as nat);
        assert(all.take(k as int) =~= all);
    }
    best
}

} // verus!
