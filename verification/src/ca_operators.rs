use vstd::prelude::*;

use crate::operators::Solution;
use crate::random::{random_below, random_bool, shuffle_vec};
use crate::service::{slots_view, Service, ServiceView};
use rand::rngs::ThreadRng;

verus! {

/// What the services are.
pub open spec fn service_views(services: Seq<Service>) -> Seq<ServiceView> {
    services.map_values(|s: Service| s@)
}

/// The slots of a constraint-aware initial solution before they are shuffled: `num_instances`
/// copies of each service in turn, then empty slots up to the solution's length.
pub open spec fn ca_slots(services: Seq<ServiceView>, num_instances: int, solution_length: int) -> Seq<Option<ServiceView>> {
    let placed = services.len() * num_instances;
    Seq::new(
        (if placed < solution_length { solution_length } else { placed }) as nat,
        |k: int| if k < placed { Some(services[k / num_instances]) } else { None },
    )
}

proof fn lemma_instance_index(s: int, j: int, n: int)
    requires
        0 <= s,
        0 <= j < n,
    ensures
        (s * n + j) / n == s,
        s * n + j + 1 <= (s + 1) * n,
{
    vstd::arithmetic::div_mod::lemma_fundamental_div_mod_converse(s * n + j, n, s, j);
    assert(s * n + j + 1 <= (s + 1) * n) by (nonlinear_arith) requires j < n;
}

/// A constraint-aware initial solution: `num_instances` copies of every service and empty slots
/// up to `solution_length`, in a random order. (How many instances to take is the caller's
/// choice; the population builder derives it from the position in the population.)
pub fn ca_initial_solution(
    services: &Vec<Service>,
    solution_length: usize,
    num_instances: usize,
    rng: &mut ThreadRng,
) -> (solution: Solution<Service>)
    requires
        services@.len() * num_instances <= usize::MAX,
    ensures
        exists|built: Seq<Option<Service>>|
            slots_view(built) == ca_slots(service_views(services@), num_instances as int, solution_length as int)
                && #[trigger] built.to_multiset() == solution@.to_multiset(),
{
    let ghost sv = service_views(services@);
    let ghost target = ca_slots(sv, num_instances as int, solution_length as int);
    let ghost placed_all = services@.len() * num_instances;
    let mut new_solution: Vec<Option<Service>> = Vec::new();
    let mut num_placed: usize = 0;
    let mut s: usize = 0;
    while s < services.len()
        invariant
            sv == service_views(services@),
            target == ca_slots(sv, num_instances as int, solution_length as int),
            placed_all == services@.len() * num_instances,
            placed_all <= usize::MAX,
            s <= services@.len(),
            num_placed == s * num_instances,
            new_solution@.len() == num_placed,
            forall|k: int| 0 <= k < num_placed ==> #[trigger] slots_view(new_solution@)[k] == target[k],
        decreases services@.len() - s,
    {
        proof {
            assert(s * num_instances + num_instances <= placed_all) by (nonlinear_arith)
                requires s < services@.len(), placed_all == services@.len() * num_instances;
        }
        let mut j: usize = 0;
        while j < num_instances
            invariant
                sv == service_views(services@),
                target == ca_slots(sv, num_instances as int, solution_length as int),
                placed_all == services@.len() * num_instances,
                s < services@.len(),
                s * num_instances + num_instances <= placed_all,
                placed_all <= usize::MAX,
                j <= num_instances,
                num_placed == s * num_instances + j,
                new_solution@.len() == num_placed,
                forall|k: int| 0 <= k < num_placed ==> #[trigger] slots_view(new_solution@)[k] == target[k],
            decreases num_instances - j,
        {
            let ghost before = new_solution@;
            let copy = services[s].clone();
            new_solution.push(Some(copy));
            proof {
                lemma_instance_index(s as int, j as int, num_instances as int);
                assert forall|k: int| 0 <= k < num_placed + 1 implies #[trigger] slots_view(new_solution@)[k]
                    == target[k] by {
                    if k < num_placed {
                        assert(new_solution@[k] == before[k]);
                        assert(slots_view(before)[k] == target[k]);
                    } else {
                        assert(k / (num_instances as int) == s);
                        assert(sv[s as int] == services@[s as int]@);
                    }
                }
            }
            num_placed = num_placed + 1;
            j += 1;
        }
        proof {
            assert((s + 1) * num_instances == s * num_instances + num_instances) by (nonlinear_arith);
        }
        s += 1;
    }
    // Fill in the remaining spaces with empty slots
    let mut k: usize = num_placed;
    while k < solution_length
        invariant
            target == ca_slots(sv, num_instances as int, solution_length as int),
            sv == service_views(services@),
            placed_all == services@.len() * num_instances,
            num_placed == placed_all,
            num_placed <= k,
            k <= solution_length || k == num_placed,
            new_solution@.len() == k,
            forall|t: int| 0 <= t < k ==> #[trigger] slots_view(new_solution@)[t] == target[t],
        decreases solution_length - k,
    {
        let ghost before = new_solution@;
        new_solution.push(None);
        proof {
            assert forall|t: int| 0 <= t < k + 1 implies #[trigger] slots_view(new_solution@)[t] == target[t] by {
                if t < k {
                    assert(new_solution@[t] == before[t]);
                    assert(slots_view(before)[t] == target[t]);
                } else {
                    assert(sv.len() * num_instances == placed_all);
                    assert(target[t] is None);
                }
            }
        }
        k += 1;
    }
    let ghost built = new_solution@;
    proof {
        assert(slots_view(built) =~= target);
    }
    shuffle_vec(&mut new_solution, rng);
    new_solution
}

/// One position of the constraint-aware mutation, done in place on the slots as they stand
/// (`cur`). A position that is not mutated keeps what it holds. A swap exchanges what this
/// position and position `draw` hold. Otherwise a service (the one drawn) is added to an empty
/// slot, or the slot is emptied.
pub open spec fn ca_mutate_step(
    cur: Seq<Option<ServiceView>>,
    services: Seq<ServiceView>,
    i: int,
    mutate: bool,
    swap: bool,
    draw: int,
) -> Seq<Option<ServiceView>> {
    if !mutate {
        cur
    } else if swap {
        cur.update(i, cur[draw]).update(draw, cur[i])
    } else if cur[i] is None {
        cur.update(i, Some(services[draw]))
    } else {
        cur.update(i, None)
    }
}

/// The constraint-aware mutation over the first `m` positions, starting from the solution.
pub open spec fn ca_mutate_run(
    sol: Seq<Option<ServiceView>>,
    services: Seq<ServiceView>,
    mutate: Seq<bool>,
    swaps: Seq<bool>,
    draws: Seq<int>,
    m: int,
) -> Seq<Option<ServiceView>>
    decreases m,
{
    if m <= 0 {
        sol
    } else {
        ca_mutate_step(
            ca_mutate_run(sol, services, mutate, swaps, draws, m - 1),
            services,
            m - 1,
            mutate[m - 1],
            swaps[m - 1],
            draws[m - 1],
        )
    }
}

/// Coins and draws the mutation can make: a position of the solution for a swap, a service (when
/// there is one) for an addition.
pub open spec fn ca_draws_valid(
    sol: Seq<Option<ServiceView>>,
    num_services: int,
    mutate: Seq<bool>,
    swaps: Seq<bool>,
    draws: Seq<int>,
) -> bool {
    &&& swaps.len() == sol.len()
    &&& draws.len() == sol.len()
    &&& forall|i: int|
        0 <= i < sol.len() && #[trigger] mutate[i] ==> (swaps[i] ==> 0 <= draws[i] < sol.len()) && (!swaps[i]
            && num_services > 0 ==> 0 <= draws[i] < num_services)
}

proof fn lemma_run_prefix(
    sol: Seq<Option<ServiceView>>,
    services: Seq<ServiceView>,
    mutate: Seq<bool>,
    swaps: Seq<bool>,
    draws: Seq<int>,
    mutate2: Seq<bool>,
    swaps2: Seq<bool>,
    draws2: Seq<int>,
    m: int,
)
    requires
        0 <= m,
        m <= mutate.len(),
        m <= mutate2.len(),
        m <= swaps.len(),
        m <= swaps2.len(),
        m <= draws.len(),
        m <= draws2.len(),
        forall|i: int| 0 <= i < m ==> mutate[i] == mutate2[i] && swaps[i] == swaps2[i] && draws[i] == draws2[i],
    ensures
        ca_mutate_run(sol, services, mutate, swaps, draws, m) == ca_mutate_run(sol, services, mutate2, swaps2, draws2, m),
    decreases m,
{
    if m > 0 {
        lemma_run_prefix(sol, services, mutate, swaps, draws, mutate2, swaps2, draws2, m - 1);
    }
}

/// The constraint-aware mutation, in place on a copy of the solution: each position the mutation
/// asks for (`mutate`) is, as a fair coin decides, swapped with a random position, or else filled
/// with a random service when empty and emptied when not. The other positions keep what they
/// hold.
pub fn ca_mutation(
    solution: &Solution<Service>,
    services: &Vec<Service>,
    mutate: &Vec<bool>,
    rng: &mut ThreadRng,
) -> (new_solution: Solution<Service>)
    requires
        mutate@.len() >= solution@.len(),
        services@.len() > 0 || forall|i: int| 0 <= i < solution@.len() && #[trigger] solution@[i] is None ==> !mutate@[i],
    ensures
        new_solution@.len() == solution@.len(),
        exists|swaps: Seq<bool>, draws: Seq<int>|
            ca_draws_valid(slots_view(solution@), services@.len() as int, mutate@, swaps, draws) && slots_view(
                new_solution@,
            ) == #[trigger] ca_mutate_run(
                slots_view(solution@),
                service_views(services@),
                mutate@,
                swaps,
                draws,
                solution@.len() as int,
            ),
{
    let ghost sol = slots_view(solution@);
    let ghost sv = service_views(services@);
    let ghost ns = services@.len() as int;
    let n = solution.len();
    let mut new_solution: Vec<Option<Service>> = Vec::new();
    let mut t: usize = 0;
    while t < n
        invariant
            t <= n,
            n == solution@.len(),
            sol == slots_view(solution@),
            new_solution@.len() == t,
            forall|k: int| 0 <= k < t ==> #[trigger] slots_view(new_solution@)[k] == sol[k],
            forall|k: int| 0 <= k < t ==> (#[trigger] new_solution@[k] is Some <==> solution@[k] is Some),
            mutate@.len() >= n,
        decreases n - t,
    {
        let ghost copied = new_solution@;
        let entry = match &solution[t] {
            Some(x) => Some(x.clone()),
            None => None,
        };
        new_solution.push(entry);
        proof {
            assert forall|k: int| 0 <= k < t + 1 implies #[trigger] slots_view(new_solution@)[k] == sol[k] by {
                if k < t {
                    assert(new_solution@[k] == copied[k]);
                    assert(slots_view(copied)[k] == sol[k]);
                }
            }
        }
        t += 1;
    }
    let ghost mut swaps: Seq<bool> = Seq::empty();
    let ghost mut draws: Seq<int> = Seq::empty();
    proof {
        assert(slots_view(new_solution@) =~= sol);
    }
    let mut i: usize = 0;
    while i < n
        invariant
            n == solution@.len(),
            sol == slots_view(solution@),
            sv == service_views(services@),
            ns == services@.len(),
            mutate@.len() >= n,
            // Mutated positions not reached yet hold a service, when there is none to add
            ns > 0 || forall|k: int| i <= k < n && #[trigger] mutate@[k] ==> new_solution@[k] is Some,
            i <= n,
            new_solution@.len() == n,
            swaps.len() == i,
            draws.len() == i,
            forall|k: int|
                0 <= k < i && #[trigger] mutate@[k] ==> (swaps[k] ==> 0 <= draws[k] < n) && (!swaps[k] && ns > 0
                    ==> 0 <= draws[k] < ns),
            slots_view(new_solution@) == ca_mutate_run(sol, sv, mutate@, swaps, draws, i as int),
        decreases n - i,
    {
        let ghost before = slots_view(new_solution@);
        let ghost before_raw = new_solution@;
        if !mutate[i] {
            proof {
                let sw = swaps.push(false);
                let dr = draws.push(0);
                lemma_run_prefix(sol, sv, mutate@, sw, dr, mutate@, swaps, draws, i as int);
                swaps = sw;
                draws = dr;
            }
        } else if random_bool(rng) {
            // Swap, in place
            let swap = random_below(rng, 0, n);
            let here = new_solution[i].clone();
            let there = new_solution[swap].clone();
            new_solution.set(i, there);
            new_solution.set(swap, here);
            proof {
                let sw = swaps.push(true);
                let dr = draws.push(swap as int);
                lemma_run_prefix(sol, sv, mutate@, sw, dr, mutate@, swaps, draws, i as int);
                assert(slots_view(new_solution@) =~= ca_mutate_step(before, sv, i as int, true, true, swap as int));
                if ns == 0 {
                    assert forall|k: int| i + 1 <= k < n && #[trigger] mutate@[k] implies new_solution@[k] is Some by {
                        if k == swap {
                            assert(before_raw[i as int] is Some);
                        } else {
                            assert(new_solution@[k] == before_raw[k]);
                        }
                    }
                }
                swaps = sw;
                draws = dr;
            }
        } else {
            // Add/Delete
            if new_solution[i].is_none() {
                let idx = random_below(rng, 0, services.len());
                let new_service = services[idx].clone();
                new_solution.set(i, Some(new_service));
                proof {
                    let sw = swaps.push(false);
                    let dr = draws.push(idx as int);
                    lemma_run_prefix(sol, sv, mutate@, sw, dr, mutate@, swaps, draws, i as int);
                    assert(slots_view(new_solution@) =~= ca_mutate_step(before, sv, i as int, true, false, idx as int));
                    swaps = sw;
                    draws = dr;
                }
            } else {
                new_solution.set(i, None);
                proof {
                    let sw = swaps.push(false);
                    let dr = draws.push(0);
                    lemma_run_prefix(sol, sv, mutate@, sw, dr, mutate@, swaps, draws, i as int);
                    assert(slots_view(new_solution@) =~= ca_mutate_step(before, sv, i as int, true, false, 0));
                    swaps = sw;
                    draws = dr;
                }
            }
        }
        i += 1;
    }
    proof {
        assert(ca_draws_valid(sol, ns, mutate@, swaps, draws));
    }
    new_solution
}

} // verus!
