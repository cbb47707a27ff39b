use vstd::prelude::*;

use crate::operators::Solution;
use crate::random::random_below;
use crate::service::VNF;
use rand::rngs::ThreadRng;

verus! {

broadcast use {vstd::seq_lib::group_to_multiset_ensures, vstd::multiset::group_multiset_axioms};

/// Replacing entry `idx` by the last and dropping the last takes exactly that entry out.
proof fn lemma_swap_remove<A>(pool: Seq<A>, idx: int)
    requires
        0 <= idx < pool.len(),
    ensures
        pool.update(idx, pool.last()).drop_last().to_multiset() == pool.to_multiset().remove(pool[idx]),
{
    let last = pool.len() - 1;
    if idx == last {
        assert(pool.update(idx, pool.last()) =~= pool);
        assert(pool.drop_last() =~= pool.remove(last));
        vstd::seq_lib::to_multiset_remove(pool, last);
    } else {
        let u = pool.update(idx, pool.last());
        vstd::seq_lib::to_multiset_update(pool, idx, pool.last());
        assert(u.drop_last() =~= u.remove(last));
        vstd::seq_lib::to_multiset_remove(u, last);
        assert(u[last] == pool.last());
        assert(pool.to_multiset().count(pool.last()) > 0) by {
            assert(pool.contains(pool.last()));
        }
        assert(u.drop_last().to_multiset() =~= pool.to_multiset().remove(pool[idx]));
    }
}

/// The VNFs on the first `m` VMs of a placement whose first `m` VMs are all taken.
pub open spec fn placed_prefix(vms: Seq<Option<VNF>>, m: int) -> Seq<VNF> {
    Seq::new(m as nat, |i: int| vms[i]->0)
}

/// Draws VNFs from the roulette without replacement into the VMs in order, while both last:
/// the first `min(solution_length, roulette.len())` VMs are taken, by VNFs of the roulette (each
/// at most as often as it is on it), and the other VMs stay empty.
pub fn roulette_fill(roulette: Vec<VNF>, solution_length: usize, rng: &mut ThreadRng) -> (vms: Solution<VNF>)
    ensures
        vms@.len() == solution_length,
        forall|i: int|
            0 <= i < solution_length ==> (#[trigger] vms@[i] is Some <==> i < roulette@.len()),
        placed_prefix(vms@, if solution_length < roulette@.len() {
            solution_length as int
        } else {
            roulette@.len() as int
        }).to_multiset().subset_of(roulette@.to_multiset()),
{
    let ghost orig = roulette@;
    let mut roulette = roulette;
    let mut vms: Vec<Option<VNF>> = Vec::new();
    let mut t: usize = 0;
    while t < solution_length
        invariant
            t <= solution_length,
            vms@ =~= Seq::new(t as nat, |i: int| None::<VNF>),
        decreases solution_length - t,
    {
        vms.push(None);
        t += 1;
    }
    let mut end = roulette.len();
    let mut alloc_i: usize = 0;
    proof {
        assert(placed_prefix(vms@, 0) =~= Seq::<VNF>::empty());
        assert(roulette@.take(end as int) =~= orig);
        assert(placed_prefix(vms@, 0).to_multiset().add(orig.to_multiset()) =~= orig.to_multiset());
    }
    while end != 0 && alloc_i < vms.len()
        invariant
            vms@.len() == solution_length,
            roulette@.len() == orig.len(),
            end + alloc_i == orig.len(),
            alloc_i <= solution_length,
            forall|i: int| 0 <= i < solution_length ==> (#[trigger] vms@[i] is Some <==> i < alloc_i),
            placed_prefix(vms@, alloc_i as int).to_multiset().add(roulette@.take(end as int).to_multiset())
                == orig.to_multiset(),
        decreases end,
    {
        let ghost pool = roulette@.take(end as int);
        let ghost drawn = placed_prefix(vms@, alloc_i as int);
        let idx = random_below(rng, 0, end);
        let x = roulette[idx];
        vms.set(alloc_i, Some(x));
        let last = roulette[end - 1];
        roulette.set(idx, last);
        end = end - 1;
        alloc_i = alloc_i + 1;
        proof {
            assert(pool[idx as int] == x);
            assert(pool.last() == last);
            assert(roulette@.take(end as int) =~= pool.update(idx as int, pool.last()).drop_last());
            lemma_swap_remove(pool, idx as int);
            assert(placed_prefix(vms@, alloc_i as int) =~= drawn.push(x));
            assert(pool.to_multiset().count(x) > 0) by {
                assert(pool.contains(x));
            }
            assert(drawn.push(x).to_multiset().add(pool.to_multiset().remove(x)) =~= drawn.to_multiset().add(
                pool.to_multiset(),
            ));
        }
    }
    proof {
        let m = alloc_i as int;
        assert(m == (if solution_length < orig.len() { solution_length as int } else { orig.len() as int }));
        let placed = placed_prefix(vms@, m);
        assert(placed.to_multiset().subset_of(orig.to_multiset())) by {
            assert forall|v: VNF| placed.to_multiset().count(v) <= orig.to_multiset().count(v) by {
                assert(orig.to_multiset().count(v) == placed.to_multiset().count(v) + roulette@.take(
                    end as int,
                ).to_multiset().count(v));
            }
        }
    }
    vms
}

/// The entry a draw gives: the roulette's VNF at index `d` when there is one, else nothing.
pub open spec fn roulette_entry_spec(roulette: Seq<VNF>, d: int) -> Option<VNF> {
    if 0 <= d < roulette.len() {
        Some(roulette[d])
    } else {
        None
    }
}

/// The entry that draw `d` gives from the roulette.
pub fn roulette_entry(roulette: &Vec<VNF>, d: usize) -> (e: Option<VNF>)
    ensures
        e == roulette_entry_spec(roulette@, d as int),
{
    if d < roulette.len() {
        Some(roulette[d])
    } else {
        None
    }
}

/// Gives each position that the mutation asks for (`mutate`) a draw from `0` up to the
/// solution's length: the roulette's VNF at that index when there is one, else nothing. The
/// other positions keep their entries.
pub fn reassign_positions(
    solution: &Solution<VNF>,
    roulette: &Vec<VNF>,
    mutate: &Vec<bool>,
    rng: &mut ThreadRng,
) -> (new_solution: Solution<VNF>)
    requires
        solution@.len() < usize::MAX,
        mutate@.len() >= solution@.len(),
    ensures
        new_solution@.len() == solution@.len(),
        forall|i: int|
            0 <= i < solution@.len() ==> if mutate@[i] {
                exists|d: int|
                    0 <= d <= solution@.len() && #[trigger] new_solution@[i] == roulette_entry_spec(roulette@, d)
            } else {
                new_solution@[i] == solution@[i]
            },
{
    let mut new_solution: Vec<Option<VNF>> = Vec::with_capacity(solution.len());
    let mut i: usize = 0;
    while i < solution.len()
        invariant
            solution@.len() < usize::MAX,
            mutate@.len() >= solution@.len(),
            i <= solution@.len(),
            new_solution@.len() == i,
            forall|j: int|
                0 <= j < i && #[trigger] mutate@[j] ==> exists|d: int|
                    0 <= d <= solution@.len() && new_solution@[j] == roulette_entry_spec(roulette@, d),
            forall|j: int| 0 <= j < i && !#[trigger] mutate@[j] ==> new_solution@[j] == solution@[j],
        decreases solution@.len() - i,
    {
        if mutate[i] {
            let draw = random_below(rng, 0, solution.len() + 1);
            let e = roulette_entry(roulette, draw);
            new_solution.push(e);
            proof {
                assert(new_solution@[i as int] == roulette_entry_spec(roulette@, draw as int));
            }
        } else {
            new_solution.push(solution[i]);
        }
        i += 1;
    }
    proof {
        assert forall|i: int| 0 <= i < solution@.len() implies if mutate@[i] {
            exists|d: int|
                0 <= d <= solution@.len() && #[trigger] new_solution@[i] == roulette_entry_spec(roulette@, d)
        } else {
            new_solution@[i] == solution@[i]
        } by {
            if mutate@[i] {
                let d = choose|d: int| 0 <= d <= solution@.len() && new_solution@[i] == roulette_entry_spec(roulette@, d);
                assert(new_solution@[i] == roulette_entry_spec(roulette@, d));
            }
        }
    }
    new_solution
}

} // verus!
