use vstd::prelude::*;

use crate::instances::{queue_from, shuffled_queue};
use crate::operators::Solution;
use crate::service::{Service, VNF};

verus! {

/// Best-fit sequential placement of a queue of VNFs: the VMs in order take the queue's entries
/// in order, while both last.
pub open spec fn bfs_spec(q: Seq<VNF>, num_vms: int) -> Seq<Option<VNF>> {
    Seq::new(num_vms as nat, |i: int| if i < q.len() { Some(q[i]) } else { None })
}

/// The same number of instances of every service.
pub open spec fn uniform_counts(num_instances: usize, num_services: nat) -> Seq<usize> {
    Seq::new(num_services, |i: int| num_instances)
}

/// A sequential placement of some shuffled order of `num_instances` instances of each service.
pub open spec fn bfs_outcome(num_instances: usize, services: Seq<Service>, num_vms: int, sol: Seq<Option<VNF>>) -> bool {
    exists|q: Seq<VNF>|
        #![trigger bfs_spec(q, num_vms)]
        queue_from(uniform_counts(num_instances, services.len()), services, q) && sol == bfs_spec(q, num_vms)
}

/// Places `num_instances` instances of every service, shuffled, into the VMs in order. (How many
/// instances to take is the caller's choice; the population builder derives it from the position
/// in the population.)
pub fn bfs(services: &Vec<Service>, num_instances: usize, vms_per_server: usize, num_servers: usize) -> (solution:
    Solution<VNF>)
    requires
        vms_per_server * num_servers <= usize::MAX,
    ensures
        bfs_outcome(num_instances, services@, vms_per_server * num_servers, solution@),
{
    let num_vms = vms_per_server * num_servers;
    let mut ns: Vec<usize> = Vec::new();
    let mut t: usize = 0;
    while t < services.len()
        invariant
            t <= services@.len(),
            ns@ =~= Seq::new(t as nat, |i: int| num_instances),
        decreases services@.len() - t,
    {
        ns.push(num_instances);
        t += 1;
    }
    let mut rng = rand::thread_rng();
    let queue = shuffled_queue(&ns, services, &mut rng);
    proof {
        assert(ns@ == uniform_counts(num_instances, services@.len()));
    }
    // BFS placement
    let mut i: usize = 0;
    let mut solution: Vec<Option<VNF>> = Vec::new();
    while i < num_vms
        invariant
            i <= num_vms,
            solution@ =~= Seq::new(i as nat, |j: int| None::<VNF>),
        decreases num_vms - i,
    {
        solution.push(None);
        i += 1;
    }
    let mut i: usize = 0;
    while i < queue.len() && i < num_vms
        invariant
            i <= num_vms,
            solution@.len() == num_vms,
            forall|j: int| 0 <= j < num_vms ==> #[trigger] solution@[j] == (if j < i { Some(queue@[j]) } else { None }),
            i <= queue@.len(),
        decreases num_vms - i,
    {
        solution.set(i, Some(queue[i]));
        i += 1;
    }
    proof {
        assert(solution@ =~= bfs_spec(queue@, num_vms as int));
    }
    solution
}

} // verus!
