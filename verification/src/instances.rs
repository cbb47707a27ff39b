use vstd::prelude::*;

use crate::random::shuffle_vec;
use crate::service::{Service, VNF};
use rand::rngs::ThreadRng;

verus! {

/// The service instances asked for: service `s` repeated `ns[s]` times, for the first `m`
/// services in order.
pub open spec fn instances_spec(ns: Seq<usize>, m: int) -> Seq<usize>
    decreases m,
{
    if m <= 0 {
        Seq::empty()
    } else {
        instances_spec(ns, m - 1) + Seq::new(ns[m - 1] as nat, |i: int| (m - 1) as usize)
    }
}

/// The VNFs of the instances, chain after chain, in the order of the instances.
pub open spec fn queue_spec(order: Seq<usize>, services: Seq<Service>) -> Seq<VNF>
    decreases order.len(),
{
    if order.len() == 0 {
        Seq::empty()
    } else {
        queue_spec(order.drop_last(), services) + services[order.last() as int].vnfs@
    }
}

/// The VNF belongs to the chain of one of the services.
pub open spec fn in_some_service(services: Seq<Service>, v: VNF) -> bool {
    exists|s: int, j: int| 0 <= s < services.len() && 0 <= j < services[s].vnfs@.len() && v == #[trigger] services[s].vnfs@[j]
}

/// A queue of VNFs made from the asked-for instances in some order.
pub open spec fn queue_from(ns: Seq<usize>, services: Seq<Service>, q: Seq<VNF>) -> bool {
    exists|order: Seq<usize>|
        #![trigger queue_spec(order, services)]
        order.to_multiset() == instances_spec(ns, services.len() as int).to_multiset() && q == queue_spec(
            order,
            services,
        )
}

proof fn lemma_instances_in_range(ns: Seq<usize>, m: int)
    requires
        0 <= m,
    ensures
        forall|i: int| 0 <= i < instances_spec(ns, m).len() ==> #[trigger] instances_spec(ns, m)[i] < m,
    decreases m,
{
    if m > 0 {
        lemma_instances_in_range(ns, m - 1);
        let a = instances_spec(ns, m - 1);
        let b = Seq::new(ns[m - 1] as nat, |i: int| (m - 1) as usize);
        assert forall|i: int| 0 <= i < (a + b).len() implies #[trigger] (a + b)[i] < m by {
            if i < a.len() {
                assert((a + b)[i] == a[i]);
            } else {
                assert((a + b)[i] == b[i - a.len()]);
            }
        }
    }
}

/// The asked-for instances of the services, service by service.
fn service_instances(ns: &Vec<usize>, num_services: usize) -> (res: Vec<usize>)
    requires
        ns@.len() >= num_services,
    ensures
        res@ == instances_spec(ns@, num_services as int),
{
    let mut service_instances: Vec<usize> = Vec::new();
    let mut s_id: usize = 0;
    while s_id < num_services
        invariant
            s_id <= num_services,
            ns@.len() >= num_services,
            service_instances@ == instances_spec(ns@, s_id as int),
        decreases num_services - s_id,
    {
        let num_instances = ns[s_id];
        let ghost before = service_instances@;
        let mut j: usize = 0;
        while j < num_instances
            invariant
                j <= num_instances,
                service_instances@ == before + Seq::new(j as nat, |i: int| s_id),
            decreases num_instances - j,
        {
            service_instances.push(s_id);
            j += 1;
            proof {
                assert(service_instances@ =~= before + Seq::new(j as nat, |i: int| s_id));
            }
        }
        proof {
            assert(Seq::new(num_instances as nat, |i: int| s_id) =~= Seq::new(
                ns@[s_id as int] as nat,
                |i: int| ((s_id + 1) - 1) as usize,
            ));
        }
        s_id += 1;
    }
    service_instances
}

/// The VNFs of the given instances, chain after chain.
fn vnf_queue(order: &Vec<usize>, services: &Vec<Service>) -> (res: Vec<VNF>)
    requires
        forall|i: int| 0 <= i < order@.len() ==> #[trigger] order@[i] < services@.len(),
    ensures
        res@ == queue_spec(order@, services@),
        forall|i: int| 0 <= i < res@.len() ==> in_some_service(services@, #[trigger] res@[i]),
{
    let mut queue: Vec<VNF> = Vec::new();
    let mut i: usize = 0;
    while i < order.len()
        invariant
            i <= order@.len(),
            forall|i: int| 0 <= i < order@.len() ==> #[trigger] order@[i] < services@.len(),
            queue@ == queue_spec(order@.subrange(0, i as int), services@),
            forall|t: int| 0 <= t < queue@.len() ==> in_some_service(services@, #[trigger] queue@[t]),
        decreases order@.len() - i,
    {
        let vnfs = &services[order[i]].vnfs;
        let ghost before = queue@;
        let mut j: usize = 0;
        while j < vnfs.len()
            invariant
                j <= vnfs@.len(),
                queue@ == before + vnfs@.subrange(0, j as int),
                i < order@.len(),
                forall|i: int| 0 <= i < order@.len() ==> #[trigger] order@[i] < services@.len(),
                vnfs@ == services@[order@[i as int] as int].vnfs@,
                forall|t: int| 0 <= t < queue@.len() ==> in_some_service(services@, #[trigger] queue@[t]),
            decreases vnfs@.len() - j,
        {
            proof {
                assert(in_some_service(services@, vnfs@[j as int])) by {
                    assert(vnfs@[j as int] == services@[order@[i as int] as int].vnfs@[j as int]);
                }
            }
            queue.push(vnfs[j]);
            j += 1;
            proof {
                assert(queue@ =~= before + vnfs@.subrange(0, j as int));
            }
        }
        proof {
            let sub = order@.subrange(0, i as int + 1);
            assert(sub.drop_last() =~= order@.subrange(0, i as int));
            assert(vnfs@.subrange(0, vnfs@.len() as int) =~= vnfs@);
        }
        i += 1;
    }
    proof {
        assert(order@.subrange(0, order@.len() as int) =~= order@);
    }
    queue
}

/// The instances asked for by `ns`, shuffled, as one queue of VNFs.
pub fn shuffled_queue(ns: &Vec<usize>, services: &Vec<Service>, rng: &mut ThreadRng) -> (q: Vec<VNF>)
    requires
        ns@.len() >= services@.len(),
    ensures
        queue_from(ns@, services@, q@),
        forall|i: int| 0 <= i < q@.len() ==> in_some_service(services@, #[trigger] q@[i]),
{
    let mut instances = service_instances(ns, services.len());
    proof {
        lemma_instances_in_range(ns@, services@.len() as int);
    }
    let ghost before = instances@;
    // Shuffle services so they are distributed about
    shuffle_vec(&mut instances, rng);
    proof {
        assert forall|i: int| 0 <= i < instances@.len() implies #[trigger] instances@[i] < services@.len() by {
            assert(instances@.to_multiset().count(instances@[i]) > 0) by {
                broadcast use vstd::seq_lib::group_to_multiset_ensures;
                assert(instances@.contains(instances@[i]));
            }
            assert(before.to_multiset().count(instances@[i]) > 0);
            assert(before.contains(instances@[i])) by {
                broadcast use vstd::seq_lib::group_to_multiset_ensures;
            }
        }
    }
    let q = vnf_queue(&instances, services);
    assert(queue_from(ns@, services@, q@)) by {
        assert(instances@.to_multiset() == instances_spec(ns@, services@.len() as int).to_multiset());
        assert(q@ == queue_spec(instances@, services@));
    }
    q
}

} // verus!
