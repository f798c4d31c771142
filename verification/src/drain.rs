//! Demotion bookkeeping: settled matter leaves the particle set.
//!
//! Particles that have landed on the boundary body and come to rest are removed with swap-removal
//! (the last particle moves into the freed slot and is examined next), and every per-particle array
//! — positions, temperatures, material ids, phase and provenance tags — must follow the same
//! moves. This module computes that move sequence once: for each final slot, the index its particle
//! had before the scan; the caller applies it to each array and sums what was drained.

use vstd::prelude::*;

verus! {

/// Swap-removal compaction from slot `i` on: a settled particle in slot `i` is replaced by the last
/// one (which is examined next); an unsettled one stays and the scan moves on.
pub open spec fn compact(order: Seq<usize>, settled: Seq<bool>, i: nat) -> Seq<usize>
    decreases order.len() - i,
{
    if i >= order.len() {
        order
    } else if settled[order[i as int] as int] {
        compact(order.update(i as int, order.last()).drop_last(), settled, i)
    } else {
        compact(order, settled, i + 1)
    }
}

/// The identity arrangement `0, 1, …, n−1`.
pub open spec fn identity(n: nat) -> Seq<usize> {
    Seq::new(n, |k: int| k as usize)
}

/// Demote the settled particles: returns how many were drained and, for each surviving slot in its
/// final order, the index the particle now there had before the scan.
pub fn drain_order(settled: &Vec<bool>) -> (r: (usize, Vec<usize>))
    ensures
        r.1@ == compact(identity(settled@.len()), settled@, 0),
        r.0 + r.1@.len() == settled@.len(),
        forall|a: int, b: int| 0 <= a < b < r.1@.len() ==> #[trigger] r.1@[a] != #[trigger] r.1@[b],
        forall|a: int| 0 <= a < r.1@.len() ==> (#[trigger] r.1@[a] as int) < settled@.len(),
        forall|x: int| 0 <= x < settled@.len() ==> (r.1@.contains(x as usize) <==> !#[trigger] settled@[x]),
{
    let n = settled.len();
    let mut order: Vec<usize> = Vec::new();
    let mut t: usize = 0;
    while t < n
        invariant
            t <= n,
            n == settled@.len(),
            order@ == identity(t as nat),
        decreases n - t,
    {
        order.push(t);
        proof {
            assert(order@ =~= identity((t + 1) as nat));
        }
        t = t + 1;
    }
    proof {
        assert forall|x: int| 0 <= x < n && !#[trigger] settled@[x] implies order@.contains(x as usize) by {
            assert(order@[x] == x as usize);
        }
    }
    let mut i: usize = 0;
    let mut drained: usize = 0;
    while i < order.len()
        invariant
            n == settled@.len(),
            i <= order@.len(),
            drained + order@.len() == n,
            compact(order@, settled@, i as nat) == compact(identity(n as nat), settled@, 0),
            forall|a: int, b: int| 0 <= a < b < order@.len() ==> #[trigger] order@[a] != #[trigger] order@[b],
            forall|a: int| 0 <= a < order@.len() ==> (#[trigger] order@[a] as int) < n,
            forall|a: int| 0 <= a < i ==> !settled@[#[trigger] order@[a] as int],
            forall|x: int| 0 <= x < n && !#[trigger] settled@[x] ==> order@.contains(x as usize),
        decreases order@.len() - i, order@.len(),
    {
        let k = order[i];
        if settled[k] {
            let ghost before = order@;
            order.swap_remove(i);
            drained = drained + 1;
            proof {
                assert(order@ == before.update(i as int, before.last()).drop_last());
                assert forall|a: int, b: int| 0 <= a < b < order@.len() implies #[trigger] order@[a]
                    != #[trigger] order@[b] by {
                    if a == i as int {
                        assert(order@[a] == before[before.len() - 1]);
                    } else if b == i as int {
                        assert(order@[b] == before[before.len() - 1]);
                    }
                }
                assert forall|x: int| 0 <= x < n && !#[trigger] settled@[x] implies order@.contains(x as usize) by {
                    assert(before.contains(x as usize));
                    let a = choose|a: int| 0 <= a < before.len() && before[a] == x as usize;
                    if a == i as int {
                        assert(false);
                    } else if a == before.len() - 1 {
                        assert(order@[i as int] == x as usize);
                    } else {
                        assert(order@[a] == x as usize);
                    }
                }
            }
        } else {
            i = i + 1;
        }
    }
    proof {
        assert forall|x: int| 0 <= x < n implies (order@.contains(x as usize) <==> !#[trigger] settled@[x]) by {
            if order@.contains(x as usize) {
                let a = choose|a: int| 0 <= a < order@.len() && order@[a] == x as usize;
                assert(!settled@[order@[a] as int]);
            }
        }
    }
    (drained, order)
}

} // verus!
