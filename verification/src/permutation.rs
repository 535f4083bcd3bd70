//! Visiting orders of `n` points and their complete enumeration.
//!
//! A visiting order is a sequence in which every index below `n` occurs
//! exactly once. [`permutations`] lists all of them, building the orders of
//! `n` points from those of `n - 1` points by putting the new index at every
//! position in turn.

use vstd::arithmetic::div_mod::{
    lemma_fundamental_div_mod, lemma_fundamental_div_mod_converse, lemma_multiply_divide_lt,
};
use vstd::prelude::*;

verus! {

/// The number of visiting orders of `n` points.
pub open spec fn factorial(n: nat) -> nat
    decreases n,
{
    if n == 0 {
        1
    } else {
        n * factorial((n - 1) as nat)
    }
}

/// A visiting order of `n` points: `n` entries, all below `n`, no entry twice.
pub open spec fn is_permutation(p: Seq<usize>, n: usize) -> bool {
    &&& p.len() == n
    &&& forall|i: int| 0 <= i < p.len() ==> #[trigger] p[i] < n
    &&& forall|i: int, j: int| 0 <= i < j < p.len() ==> p[i] != p[j]
}

/// The orders obtained from `shorter` by putting `v` at every position from
/// `0` to `v`: first at position `0` in each order of `shorter`, then at
/// position `1` in each, and so on.
pub open spec fn extend_perms(shorter: Seq<Seq<usize>>, v: usize) -> Seq<Seq<usize>> {
    let m = shorter.len() as int;
    Seq::new(((v + 1) * m) as nat, |k: int| shorter[k % m].insert(k / m, v))
}

/// All visiting orders of `n` points, in the order in which they are produced.
pub open spec fn insertion_perms(n: usize) -> Seq<Seq<usize>>
    decreases n,
{
    if n == 0 {
        seq![Seq::<usize>::empty()]
    } else {
        extend_perms(insertion_perms((n - 1) as usize), (n - 1) as usize)
    }
}

/// The orders that a list of tours holds.
pub open spec fn tours_view(tours: Seq<Vec<usize>>) -> Seq<Seq<usize>> {
    Seq::new(tours.len(), |i: int| tours[i]@)
}

/// The entry at `block * m + offset` lies in block `block` at offset `offset`.
proof fn lemma_block_index(block: int, offset: int, m: int)
    requires
        0 <= block,
        0 <= offset < m,
    ensures
        (block * m + offset) / m == block,
        (block * m + offset) % m == offset,
{
    lemma_fundamental_div_mod_converse(block * m + offset, m, block, offset);
}

/// Every index below `blocks * m` lies in one of the `blocks` blocks.
proof fn lemma_index_block(k: int, blocks: int, m: int)
    requires
        0 < m,
        0 <= k < blocks * m,
    ensures
        0 <= k / m < blocks,
        0 <= k % m < m,
        k == (k / m) * m + k % m,
{
    lemma_fundamental_div_mod(k, m);
    assert(blocks * m == m * blocks) by (nonlinear_arith);
    lemma_multiply_divide_lt(k, m, blocks);
    assert(m * (k / m) == (k / m) * m) by (nonlinear_arith);
}

/// Entry by entry, what putting `v` at position `at` does to `q`.
proof fn lemma_insert_entries(q: Seq<usize>, at: int, v: usize)
    requires
        0 <= at <= q.len(),
    ensures
        q.insert(at, v).len() == q.len() + 1,
        q.insert(at, v)[at] == v,
        forall|i: int| 0 <= i < at ==> #[trigger] q.insert(at, v)[i] == q[i],
        forall|i: int| at < i <= q.len() ==> #[trigger] q.insert(at, v)[i] == q[i - 1],
        q.insert(at, v).remove(at) == q,
{
}

/// Putting the new index `n - 1` anywhere into an order of `n - 1` points
/// gives an order of `n` points.
proof fn lemma_insert_is_permutation(q: Seq<usize>, at: int, n: usize)
    requires
        n > 0,
        is_permutation(q, (n - 1) as usize),
        0 <= at < n,
    ensures
        is_permutation(q.insert(at, (n - 1) as usize), n),
{
    lemma_insert_entries(q, at, (n - 1) as usize);
}

/// Taking the largest index out of an order of `n` points leaves an order of
/// `n - 1` points.
proof fn lemma_remove_is_permutation(p: Seq<usize>, at: int, n: usize)
    requires
        n > 0,
        is_permutation(p, n),
        0 <= at < n,
        p[at] == n - 1,
    ensures
        is_permutation(p.remove(at), (n - 1) as usize),
        p.remove(at).insert(at, (n - 1) as usize) == p,
{
}

/// Where the index `v` stands in the order `p`.
pub proof fn lemma_position_of(p: Seq<usize>, n: usize, v: usize) -> (at: int)
    requires
        is_permutation(p, n),
        v < n,
    ensures
        0 <= at < n,
        p[at] == v,
    decreases n,
{
    let top = (n - 1) as usize;
    if forall|i: int| 0 <= i < n ==> p[i] != top {
        // Without `top`, the entries before the last are an order of `n - 1`
        // points, and the last entry is one of them: it would occur twice.
        let twin = lemma_position_of(p.drop_last(), top, p.last());
        assert(p[twin] == p.last());
    }
    let at_top = choose|i: int| 0 <= i < n && p[i] == top;
    if v == top {
        at_top
    } else {
        lemma_remove_is_permutation(p, at_top, n);
        let below = lemma_position_of(p.remove(at_top), top, v);
        if below < at_top {
            below
        } else {
            below + 1
        }
    }
}

proof fn lemma_factorial_positive(n: nat)
    ensures
        factorial(n) > 0,
    decreases n,
{
    if n > 0 {
        lemma_factorial_positive((n - 1) as nat);
        assert(n * factorial((n - 1) as nat) > 0) by (nonlinear_arith)
            requires
                n > 0,
                factorial((n - 1) as nat) > 0,
        ;
    }
}

proof fn lemma_count(n: usize)
    ensures
        insertion_perms(n).len() == factorial(n as nat),
        insertion_perms(n).len() > 0,
    decreases n,
{
    lemma_factorial_positive(n as nat);
    if n > 0 {
        lemma_count((n - 1) as usize);
    }
}

proof fn lemma_all_permutations(n: usize)
    ensures
        forall|k: int|
            0 <= k < insertion_perms(n).len() ==> is_permutation(
                #[trigger] insertion_perms(n)[k],
                n,
            ),
    decreases n,
{
    if n > 0 {
        let shorter = insertion_perms((n - 1) as usize);
        let m = shorter.len() as int;
        lemma_all_permutations((n - 1) as usize);
        lemma_count((n - 1) as usize);
        assert forall|k: int| 0 <= k < insertion_perms(n).len() implies is_permutation(
            #[trigger] insertion_perms(n)[k],
            n,
        ) by {
            lemma_index_block(k, n as int, m);
            lemma_insert_is_permutation(shorter[k % m], k / m, n);
        }
    }
}

proof fn lemma_distinct(n: usize)
    ensures
        forall|a: int, b: int|
            0 <= a < b < insertion_perms(n).len() ==> insertion_perms(n)[a] != insertion_perms(
                n,
            )[b],
    decreases n,
{
    if n > 0 {
        let v = (n - 1) as usize;
        let shorter = insertion_perms(v);
        let longer = insertion_perms(n);
        let m = shorter.len() as int;
        lemma_distinct(v);
        lemma_all_permutations(v);
        lemma_count(v);
        assert forall|a: int, b: int| 0 <= a < b < longer.len() implies longer[a] != longer[b] by {
            // Equal orders hold `v` at the same position, and without it
            // they are the same shorter order.
            lemma_index_block(a, n as int, m);
            lemma_index_block(b, n as int, m);
            lemma_insert_entries(shorter[a % m], a / m, v);
            lemma_insert_entries(shorter[b % m], b / m, v);
        }
    }
}

/// The place of the order `p` in the enumeration.
pub proof fn lemma_rank_of(p: Seq<usize>, n: usize) -> (k: int)
    requires
        is_permutation(p, n),
    ensures
        0 <= k < insertion_perms(n).len(),
        insertion_perms(n)[k] == p,
    decreases n,
{
    if n == 0 {
        0
    } else {
        let v = (n - 1) as usize;
        let m = insertion_perms(v).len() as int;
        let at = lemma_position_of(p, n, v);
        lemma_remove_is_permutation(p, at, n);
        let j = lemma_rank_of(p.remove(at), v);
        lemma_block_index(at, j, m);
        assert(at * m + j < (v + 1) * m) by (nonlinear_arith)
            requires
                0 <= at <= v,
                0 <= j < m,
        ;
        at * m + j
    }
}

/// The enumeration is complete: for `n` points it holds `n!` orders, each a
/// visiting order of the `n` points, no order twice, and every visiting order
/// of the `n` points is among them.
pub proof fn lemma_enumeration_complete(n: usize)
    ensures
        insertion_perms(n).len() == factorial(n as nat),
        forall|k: int|
            0 <= k < insertion_perms(n).len() ==> is_permutation(
                #[trigger] insertion_perms(n)[k],
                n,
            ),
        forall|a: int, b: int|
            0 <= a < b < insertion_perms(n).len() ==> insertion_perms(n)[a] != insertion_perms(
                n,
            )[b],
        forall|p: Seq<usize>| #[trigger]
            is_permutation(p, n) ==> exists|k: int|
                0 <= k < insertion_perms(n).len() && insertion_perms(n)[k] == p,
{
    lemma_count(n);
    lemma_all_permutations(n);
    lemma_distinct(n);
    assert forall|p: Seq<usize>| #[trigger] is_permutation(p, n) implies exists|k: int|
        0 <= k < insertion_perms(n).len() && insertion_perms(n)[k] == p by {
        lemma_rank_of(p, n);
    }
}

/// In a visiting order of `n` points no index below `n` is left out.
pub proof fn lemma_permutation_onto(p: Seq<usize>, n: usize)
    requires
        is_permutation(p, n),
    ensures
        forall|v: usize| v < n ==> #[trigger] p.contains(v),
{
    assert forall|v: usize| v < n implies #[trigger] p.contains(v) by {
        lemma_position_of(p, n, v);
    }
}

/// The orders of `n` points made from those of `n - 1` points: the new index
/// `n - 1` goes to position `0` of every shorter order, then to position `1`
/// of every shorter order, up to position `n - 1`.
fn extend(shorter: &Vec<Vec<usize>>, n: usize) -> (longer: Vec<Vec<usize>>)
    requires
        n > 0,
        forall|j: int| 0 <= j < shorter.len() ==> (#[trigger] shorter[j]).len() == n - 1,
    ensures
        tours_view(longer@) == extend_perms(tours_view(shorter@), (n - 1) as usize),
{
    let m = shorter.len();
    let ghost src = tours_view(shorter@);
    let mut longer: Vec<Vec<usize>> = Vec::new();
    let mut at: usize = 0;
    while at < n
        invariant
            n > 0,
            at <= n,
            m == shorter.len(),
            src == tours_view(shorter@),
            forall|j: int| 0 <= j < shorter.len() ==> (#[trigger] shorter[j]).len() == n - 1,
            longer.len() == at * m,
            forall|k: int|
                0 <= k < longer.len() ==> (#[trigger] longer[k])@ == src[k % (m as int)].insert(
                    k / (m as int),
                    (n - 1) as usize,
                ),
        decreases n - at,
    {
        let mut j: usize = 0;
        while j < m
            invariant
                n > 0,
                at < n,
                j <= m,
                m == shorter.len(),
                src == tours_view(shorter@),
                forall|j: int| 0 <= j < shorter.len() ==> (#[trigger] shorter[j]).len() == n - 1,
                longer.len() == at * m + j,
                forall|k: int|
                    0 <= k < longer.len() ==> (#[trigger] longer[k])@ == src[k % (
                    m as int)].insert(k / (m as int), (n - 1) as usize),
            decreases m - j,
        {
            let mut tour = shorter[j].clone();
            tour.insert(at, n - 1);
            proof {
                lemma_block_index(at as int, j as int, m as int);
            }
            longer.push(tour);
            j += 1;
        }
        proof {
            assert(at * m + m == (at + 1) * m) by (nonlinear_arith);
        }
        at += 1;
    }
    longer
}

/// All visiting orders of `n` points.
///
/// The result holds `n!` orders, each with every index below `n` exactly
/// once, no order twice and none missing. They come in a fixed sequence: for
/// `n == 0` the one empty order; otherwise the orders of `n - 1` points with
/// `n - 1` put at position `0`, then the same orders with `n - 1` put at
/// position `1`, and so on up to position `n - 1`.
pub fn permutations(n: usize) -> (perms: Vec<Vec<usize>>)
    ensures
        tours_view(perms@) == insertion_perms(n),
        perms.len() == factorial(n as nat),
        forall|k: int| 0 <= k < perms.len() ==> is_permutation((#[trigger] perms[k])@, n),
        forall|a: int, b: int| 0 <= a < b < perms.len() ==> perms[a]@ != perms[b]@,
        forall|p: Seq<usize>| #[trigger]
            is_permutation(p, n) ==> exists|k: int| 0 <= k < perms.len() && perms[k]@ == p,
{
    let mut perms: Vec<Vec<usize>> = Vec::new();
    perms.push(Vec::new());
    let mut size: usize = 0;
    while size < n
        invariant
            size <= n,
            tours_view(perms@) == insertion_perms(size),
        decreases n - size,
    {
        proof {
            lemma_all_permutations(size);
            assert forall|j: int| 0 <= j < perms.len() implies (#[trigger] perms[j]).len()
                == size by {
                assert(tours_view(perms@)[j] == perms[j]@);
            }
        }
        perms = extend(&perms, size + 1);
        size += 1;
    }
    proof {
        lemma_enumeration_complete(n);
        assert forall|k: int| 0 <= k < perms.len() implies (#[trigger] perms[k])@
            == insertion_perms(n)[k] by {
            assert(tours_view(perms@)[k] == perms[k]@);
        }
    }
    perms
}

} // verus!
