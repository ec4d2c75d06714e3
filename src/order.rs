//! The order in which walls are visited while carving.
use rand::seq::SliceRandom;
use rand::SeedableRng;
use rand_xoshiro::Xoshiro256StarStar;
use vstd::prelude::*;

verus! {

/// What rand's Fisher-Yates `shuffle`, driven by a `Xoshiro256StarStar`
/// generator seeded from `seed`, makes of `items`.
pub uninterp spec fn seeded_shuffle(seed: u64, items: Seq<usize>) -> Seq<usize>;

/// Relies on `rand_xoshiro::Xoshiro256StarStar::seed_from_u64` (SplitMix64
/// expansion of the seed) and `rand::seq::SliceRandom::shuffle`, which only
/// swaps elements. The result depends on the seed and the items alone.
#[verifier::external_body]
fn shuffle_seeded(items: &mut Vec<usize>, seed: u64)
    ensures
        final(items)@ == seeded_shuffle(seed, old(items)@),
        final(items)@.to_multiset() == old(items)@.to_multiset(),
{
    let mut generator = Xoshiro256StarStar::seed_from_u64(seed);
    items.shuffle(&mut generator);
}

/// Relies on `rand::random::<u64>` (the thread-local generator); nothing is
/// known of the value it draws.
#[verifier::external_body]
pub(crate) fn fresh_seed() -> u64 {
    rand::random::<u64>()
}

/// `0, 1, ..., n - 1`.
pub open spec fn identity_order(n: int) -> Seq<usize> {
    Seq::new(n as nat, |i: int| i as usize)
}

/// Visiting order of `total` walls: increasing for seed 0, a seeded shuffle
/// otherwise.
pub open spec fn wall_order(total: int, seed: u64) -> Seq<usize> {
    if seed == 0 {
        identity_order(total)
    } else {
        seeded_shuffle(seed, identity_order(total))
    }
}

/// Every index below `total` appears in `order`, and nothing else does.
pub open spec fn lists_all(total: int, order: Seq<usize>) -> bool {
    &&& forall|k: int| 0 <= k < order.len() ==> #[trigger] order[k] < total
    &&& forall|w: int| 0 <= w < total ==> #[trigger] order.contains(w as usize)
}

/// Builds the visiting order of `total` walls for `seed`.
pub fn make_wall_order(total: usize, seed: u64) -> (order: Vec<usize>)
    ensures
        order@ == wall_order(total as int, seed),
        lists_all(total as int, order@),
{
    let mut order: Vec<usize> = Vec::with_capacity(total);
    let mut i: usize = 0;
    while i < total
        invariant
            i <= total,
            order@ == identity_order(i as int),
        decreases total - i,
    {
        order.push(i);
        i += 1;
        proof {
            assert(order@ =~= identity_order(i as int));
        }
    }
    let ghost ids = order@;
    assert forall|w: int| 0 <= w < total implies #[trigger] ids.contains(w as usize) by {
        assert(ids[w] == w as usize);
    }
    if seed != 0 {
        shuffle_seeded(&mut order, seed);
        proof {
            assert forall|k: int| 0 <= k < order@.len() implies #[trigger] order@[k] < total by {
                vstd::seq_lib::to_multiset_contains(order@, order@[k]);
                vstd::seq_lib::to_multiset_contains(ids, order@[k]);
            }
            assert forall|w: int| 0 <= w < total implies #[trigger] order@.contains(w as usize) by {
                vstd::seq_lib::to_multiset_contains(order@, w as usize);
                vstd::seq_lib::to_multiset_contains(ids, w as usize);
            }
        }
    }
    order
}

} // verus!
