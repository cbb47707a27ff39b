use vstd::prelude::*;

use crate::model::RouteNode;
use crate::operators::Solution;
use crate::service::VNF;

verus! {

/// Number of VMs taken among positions `lo` up to, not including, `hi`.
pub open spec fn used_in(solution: Seq<Option<VNF>>, lo: int, hi: int) -> nat
    decreases hi - lo,
{
    if hi <= lo {
        0
    } else {
        used_in(solution, lo, hi - 1) + (if solution[hi - 1] is Some { 1nat } else { 0nat })
    }
}

proof fn lemma_used_in_bound(solution: Seq<Option<VNF>>, lo: int, hi: int)
    requires
        lo <= hi,
    ensures
        used_in(solution, lo, hi) <= hi - lo,
    decreases hi - lo,
{
    if lo < hi {
        lemma_used_in_bound(solution, lo, hi - 1);
    }
}

/// Counts the VMs of `solution[lo..hi]` that hold a VNF.
fn count_used_in(solution: &Solution<VNF>, lo: usize, hi: usize) -> (n: usize)
    requires
        lo <= hi <= solution@.len(),
    ensures
        n == used_in(solution@, lo as int, hi as int),
{
    let mut n: usize = 0;
    let mut i: usize = lo;
    while i < hi
        invariant
            lo <= i <= hi,
            hi <= solution@.len(),
            n == used_in(solution@, lo as int, i as int),
        decreases hi - i,
    {
        proof {
            lemma_used_in_bound(solution@, lo as int, i as int);
        }
        if solution[i].is_some() {
            n = n + 1;
        }
        i += 1;
    }
    n
}

/// Number of VMs of the placement that hold a VNF.
pub fn used_vms(solution: &Solution<VNF>) -> (n: usize)
    ensures
        n == used_in(solution@, 0, solution@.len() as int),
{
    count_used_in(solution, 0, solution.len())
}

/// Number of VMs holding a VNF on the server of VM `vm`.
pub fn used_on_server(solution: &Solution<VNF>, vms_per_server: usize, vm: usize) -> (n: usize)
    requires
        vms_per_server > 0,
        (vm / vms_per_server + 1) * vms_per_server <= solution@.len(),
    ensures
        n == used_in(
            solution@,
            (vm / vms_per_server) * vms_per_server,
            (vm / vms_per_server + 1) * vms_per_server,
        ),
{
    // Get parent server
    let server_id = vm / vms_per_server;
    let num_vms = solution.len();
    proof {
        assert(server_id * vms_per_server <= (server_id + 1) * vms_per_server) by (nonlinear_arith)
            requires vms_per_server > 0, server_id >= 0;
        assert((server_id + 1) * vms_per_server <= num_vms);
        assert(server_id + 1 <= (server_id + 1) * vms_per_server) by (nonlinear_arith)
            requires vms_per_server > 0, server_id >= 0;
    }
    let min_vm_id = server_id * vms_per_server;
    let max_vm_id = (server_id + 1) * vms_per_server;
    count_used_in(solution, min_vm_id, max_vm_id)
}

/// Total number of nodes of the first `m` route graphs.
pub open spec fn nodes_upto(routes: Seq<(usize, Vec<RouteNode>)>, m: int) -> int
    decreases m,
{
    if m <= 0 {
        0
    } else {
        nodes_upto(routes, m - 1) + routes[m - 1].1@.len()
    }
}

proof fn lemma_nodes_monotone(routes: Seq<(usize, Vec<RouteNode>)>, m: int, k: int)
    requires
        0 <= k <= m <= routes.len(),
    ensures
        0 <= nodes_upto(routes, k) <= nodes_upto(routes, m),
    decreases m,
{
    if m > 0 {
        if k < m {
            lemma_nodes_monotone(routes, m - 1, k);
        } else {
            lemma_nodes_monotone(routes, m - 1, k - 1);
        }
    }
}

/// Total number of nodes over all route graphs.
pub fn total_route_length(routes: &Vec<(usize, Vec<RouteNode>)>) -> (n: usize)
    requires
        nodes_upto(routes@, routes@.len() as int) <= usize::MAX,
    ensures
        n == nodes_upto(routes@, routes@.len() as int),
{
    let mut n: usize = 0;
    let mut i: usize = 0;
    while i < routes.len()
        invariant
            i <= routes@.len(),
            nodes_upto(routes@, routes@.len() as int) <= usize::MAX,
            n == nodes_upto(routes@, i as int),
        decreases routes@.len() - i,
    {
        proof {
            lemma_nodes_monotone(routes@, routes@.len() as int, i as int + 1);
        }
        n = n + routes[i].1.len();
        i += 1;
    }
    n
}

} // verus!

verus! {

/// Number of the first `m` routes that belong to service `s`.
pub open spec fn routes_of(routes: Seq<(usize, Vec<RouteNode>)>, s: usize, m: int) -> nat
    decreases m,
{
    if m <= 0 {
        0
    } else {
        routes_of(routes, s, m - 1) + (if routes[m - 1].0 == s { 1nat } else { 0nat })
    }
}

proof fn lemma_routes_of_bound(routes: Seq<(usize, Vec<RouteNode>)>, s: usize, m: int)
    requires
        0 <= m,
    ensures
        routes_of(routes, s, m) <= m,
    decreases m,
{
    if m > 0 {
        lemma_routes_of_bound(routes, s, m - 1);
    }
}

/// How many of the routes belong to each service (the instances of each service whose chain was
/// placed).
pub fn instances_per_service(routes: &Vec<(usize, Vec<RouteNode>)>, num_services: usize) -> (counts: Vec<usize>)
    requires
        forall|i: int| 0 <= i < routes@.len() ==> #[trigger] routes@[i].0 < num_services,
    ensures
        counts@.len() == num_services,
        forall|s: int| 0 <= s < num_services ==> #[trigger] counts@[s] == routes_of(routes@, s as usize, routes@.len() as int),
{
    let mut counts: Vec<usize> = Vec::new();
    let mut t: usize = 0;
    while t < num_services
        invariant
            t <= num_services,
            counts@ =~= Seq::new(t as nat, |i: int| 0usize),
        decreases num_services - t,
    {
        counts.push(0);
        t += 1;
    }
    let mut i: usize = 0;
    while i < routes.len()
        invariant
            i <= routes@.len(),
            forall|i: int| 0 <= i < routes@.len() ==> #[trigger] routes@[i].0 < num_services,
            counts@.len() == num_services,
            forall|s: int| 0 <= s < num_services ==> #[trigger] counts@[s] == routes_of(routes@, s as usize, i as int),
        decreases routes@.len() - i,
    {
        let s_id = routes[i].0;
        proof {
            lemma_routes_of_bound(routes@, s_id, i as int);
        }
        counts.set(s_id, counts[s_id] + 1);
        proof {
            assert forall|s: int| 0 <= s < num_services implies #[trigger] counts@[s] == routes_of(
                routes@,
                s as usize,
                i as int + 1,
            ) by {
                assert(routes_of(routes@, s as usize, i as int + 1) == routes_of(routes@, s as usize, i as int) + (
                if routes@[i as int].0 == s as usize {
                    1nat
                } else {
                    0nat
                }));
            }
        }
        i += 1;
    }
    counts
}

} // verus!
