use vstd::prelude::*;

use crate::fat_tree::FatTree;
use crate::service::VNF;

verus! {

/// A solution: for each VM, what is placed on it, if anything.
pub type Solution<X> = Vec<Option<X>>;

/// Makes an initial population of solutions.
pub trait InitPop<X> {
    fn apply(&self, pop_size: usize) -> Vec<Solution<X>>;
}

/// Makes children from two parent solutions.
pub trait Crossover<X> {
    fn apply(&self, parent_one: &Solution<X>, parent_two: &Solution<X>) -> Vec<Solution<X>>;
}

/// Makes a mutated copy of a solution.
pub trait Mutation<X> {
    fn apply(&self, solution: &Solution<X>) -> Solution<X>;
}

/// The outcome of evaluating a solution: its objectives when it is feasible.
#[derive(Clone)]
pub enum Constraint<X> {
    Feasible(X),
    Infeasible,
}

impl<X: Clone> Constraint<X> {
    pub fn is_feasible(&self) -> (b: bool)
        ensures
            b == (self is Feasible),
    {
        match self {
            Constraint::Feasible(_) => true,
            Constraint::Infeasible => false,
        }
    }

    /// The objectives of a feasible outcome.
    pub fn unwrap(&self) -> (x: X)
        requires
            self is Feasible,
        ensures
            cloned(self->Feasible_0, x),
    {
        match self {
            Constraint::Feasible(x) => x.clone(),
            Constraint::Infeasible => vstd::pervasive::unreached(),
        }
    }
}

/// Number of VMs among the first `m` that hold an instance of the VNF `id`.
pub open spec fn count_upto(solution: Seq<Option<VNF>>, id: usize, m: int) -> nat
    decreases m,
{
    if m <= 0 {
        0
    } else {
        count_upto(solution, id, m - 1) + (if solution[m - 1] is Some && solution[m - 1]->0.id == id {
            1nat
        } else {
            0nat
        })
    }
}

proof fn lemma_count_monotone(solution: Seq<Option<VNF>>, id: usize, m1: int, m2: int)
    requires
        m1 <= m2,
    ensures
        count_upto(solution, id, m1) <= count_upto(solution, id, m2),
    decreases m2 - m1,
{
    if m1 < m2 {
        lemma_count_monotone(solution, id, m1, m2 - 1);
    }
}

/// The service of the first anti-affinity VNF among the `n` VMs from `base`, if any.
pub open spec fn first_aa(solution: Seq<Option<VNF>>, aa_services: Seq<bool>, base: int, n: int) -> Option<usize>
    decreases n,
{
    if n <= 0 {
        None
    } else {
        match first_aa(solution, aa_services, base, n - 1) {
            Some(s) => Some(s),
            None => match solution[base + n - 1] {
                Some(v) => if aa_services[v.service_id as int] {
                    Some(v.service_id)
                } else {
                    None
                },
                None => None,
            },
        }
    }
}

/// A server hosting an anti-affinity service hosts VNFs of that service only.
pub open spec fn server_ok(solution: Seq<Option<VNF>>, aa_services: Seq<bool>, server: int, vms_per_server: int) -> bool {
    match first_aa(solution, aa_services, server * vms_per_server, vms_per_server) {
        None => true,
        Some(a) => forall|v: int|
            0 <= v < vms_per_server && #[trigger] solution[server * vms_per_server + v] is Some
                ==> solution[server * vms_per_server + v]->0.service_id == a,
    }
}

/// A placement is feasible when it covers every VM of the data centre, respects anti-affinity on
/// every server, places no VNF more often than its limit, and places every VNF at least once.
pub open spec fn feasible(
    solution: Seq<Option<VNF>>,
    dc: FatTree,
    num_vnfs: nat,
    aa_services: Seq<bool>,
    lim_vnfs: Seq<Option<usize>>,
) -> bool {
    &&& solution.len() == dc.spec_vms()
    &&& forall|s: int| 0 <= s < dc.spec_servers() ==> #[trigger] server_ok(solution, aa_services, s, dc.vms_per_server as int)
    &&& forall|id: usize|
        id < lim_vnfs.len() && #[trigger] lim_vnfs[id as int] is Some ==> count_upto(solution, id, dc.spec_vms())
            <= lim_vnfs[id as int]->0
    &&& forall|id: usize| id < num_vnfs ==> #[trigger] count_upto(solution, id, dc.spec_vms()) >= 1
}

/// What `is_feasible` needs to read the placement: a VM for every position it looks at, and
/// known services and VNFs on them.
pub open spec fn feasibility_args(
    solution: Seq<Option<VNF>>,
    dc: FatTree,
    num_vnfs: nat,
    aa_services: Seq<bool>,
    lim_vnfs: Seq<Option<usize>>,
) -> bool {
    &&& dc.fits()
    &&& solution.len() >= dc.spec_vms()
    &&& forall|p: int|
        0 <= p < dc.spec_vms() && #[trigger] solution[p] is Some ==> {
            &&& solution[p]->0.service_id < aa_services.len()
            &&& solution[p]->0.id < num_vnfs
            &&& solution[p]->0.id < lim_vnfs.len()
        }
}

proof fn lemma_block_in_range(s: int, servers: int, p: int)
    requires
        0 <= s < servers,
        0 <= p,
    ensures
        0 <= s * p,
        s * p + p <= servers * p,
{
    assert(0 <= s * p) by (nonlinear_arith) requires 0 <= s, 0 <= p;
    assert(s * p + p <= servers * p) by (nonlinear_arith) requires 0 <= s < servers, 0 <= p;
}

/// Whether a placement is feasible: see `feasible`.
pub fn is_feasible(
    solution: &Solution<VNF>,
    dc: &FatTree,
    vnfs: &Vec<VNF>,
    aa_services: &Vec<bool>,
    lim_vnfs: &Vec<Option<usize>>,
) -> (b: bool)
    requires
        feasibility_args(solution@, *dc, vnfs@.len(), aa_services@, lim_vnfs@),
    ensures
        b == feasible(solution@, *dc, vnfs@.len(), aa_services@, lim_vnfs@),
{
    let ghost sol = solution@;
    let ghost nv = vnfs@.len();
    if solution.len() > dc.num_vms() {
        return false;
    }
    proof {
        dc.lemma_parts_bounded();
    }
    let vps = dc.vms_per_server;
    let num_servers = dc.num_servers();
    let mut count_vnfs: Vec<usize> = Vec::new();
    let mut t: usize = 0;
    while t < vnfs.len()
        invariant
            t <= vnfs@.len(),
            count_vnfs@.len() == t,
            forall|i: int| 0 <= i < t ==> count_vnfs@[i] == 0,
        decreases vnfs@.len() - t,
    {
        count_vnfs.push(0);
        t += 1;
    }
    let mut s: usize = 0;
    while s < num_servers
        invariant
            sol == solution@,
            feasibility_args(sol, *dc, nv, aa_services@, lim_vnfs@),
            sol.len() == dc.spec_vms(),
            dc.spec_vms() == num_servers * vps,
            num_servers == dc.spec_servers(),
            vps == dc.vms_per_server,
            nv == vnfs@.len(),
            s <= num_servers,
            count_vnfs@.len() == nv,
            forall|id: usize| id < nv ==> count_vnfs@[id as int] == count_upto(sol, id, s * vps),
            forall|x: int| 0 <= x < s ==> #[trigger] server_ok(sol, aa_services@, x, vps as int),
            forall|id: usize| id < lim_vnfs@.len() && #[trigger] lim_vnfs@[id as int] is Some
                ==> count_upto(sol, id, s * vps) <= lim_vnfs@[id as int]->0,
        decreases num_servers - s,
    {
        proof {
            lemma_block_in_range(s as int, num_servers as int, vps as int);
        }
        let base = s * vps;
        // Check for anti-affinity VNFs
        let mut aa_service: Option<usize> = None;
        let mut v: usize = 0;
        while v < vps && aa_service.is_none()
            invariant
                sol == solution@,
                feasibility_args(sol, *dc, nv, aa_services@, lim_vnfs@),
                sol.len() == dc.spec_vms(),
                base + vps <= dc.spec_vms(),
                v <= vps,
                aa_service == first_aa(sol, aa_services@, base as int, v as int),
                aa_service is Some ==> first_aa(sol, aa_services@, base as int, vps as int) == aa_service,
            decreases vps - v + (if aa_service is None { 1int } else { 0int }),
        {
            let vm = solution[base + v];
            if let Some(vnf) = vm {
                if aa_services[vnf.service_id] {
                    aa_service = Some(vnf.service_id);
                    proof {
                        lemma_first_aa_stable(sol, aa_services@, base as int, v as int + 1, vps as int);
                    }
                }
            }
            v += 1;
        }
        proof {
            if aa_service is None {
                assert(v == vps);
            }
        }
        let mut v: usize = 0;
        while v < vps
            invariant
                sol == solution@,
                feasibility_args(sol, *dc, nv, aa_services@, lim_vnfs@),
                sol.len() == dc.spec_vms(),
                base == s * vps,
                s < num_servers,
                num_servers == dc.spec_servers(),
                vps == dc.vms_per_server,
                dc.spec_vms() == num_servers * vps,
                base + vps <= dc.spec_vms(),
                v <= vps,
                nv == vnfs@.len(),
                count_vnfs@.len() == nv,
                aa_service == first_aa(sol, aa_services@, base as int, vps as int),
                forall|id: usize| id < nv ==> count_vnfs@[id as int] == count_upto(sol, id, base + v),
                forall|id: usize| id < lim_vnfs@.len() && #[trigger] lim_vnfs@[id as int] is Some
                    ==> count_upto(sol, id, base + v) <= lim_vnfs@[id as int]->0,
                aa_service is Some ==> forall|w: int|
                    0 <= w < v && #[trigger] sol[base + w] is Some ==> sol[base + w]->0.service_id == aa_service->0,
            decreases vps - v,
        {
            let vm = solution[base + v];
            if let Some(vnf) = vm {
                proof {
                    assert(sol[base + v] is Some);
                }
                let old_count = count_vnfs[vnf.id];
                proof {
                    lemma_count_monotone(sol, vnf.id, base + v + 1, dc.spec_vms());
                    assert(count_upto(sol, vnf.id, base + v + 1) == old_count + 1);
                    lemma_count_bounded(sol, vnf.id, dc.spec_vms());
                    assert(count_upto(sol, vnf.id, dc.spec_vms()) <= dc.spec_vms());
                }
                count_vnfs.set(vnf.id, old_count + 1);
                if (lim_vnfs[vnf.id].is_some() && count_vnfs[vnf.id] > lim_vnfs[vnf.id].unwrap()) || (
                aa_service.is_some() && vnf.service_id != aa_service.unwrap()) {
                    proof {
                        if aa_service.is_some() && vnf.service_id != aa_service.unwrap() {
                            assert(!server_ok(sol, aa_services@, s as int, vps as int)) by {
                                assert(base == s * vps);
                                assert(sol[s * vps + v] is Some);
                            }
                            assert(!feasible(sol, *dc, nv, aa_services@, lim_vnfs@)) by {
                                assert(0 <= s < dc.spec_servers());
                            }
                        } else {
                            assert(lim_vnfs@[vnf.id as int] is Some);
                            assert(!feasible(sol, *dc, nv, aa_services@, lim_vnfs@)) by {
                                assert(vnf.id < lim_vnfs@.len());
                                assert(count_upto(sol, vnf.id, dc.spec_vms()) > lim_vnfs@[vnf.id as int]->0);
                            }
                        }
                    }
                    return false;
                }
            }
            proof {
                assert forall|id: usize| id < lim_vnfs@.len() && #[trigger] lim_vnfs@[id as int] is Some
                    implies count_upto(sol, id, base + v + 1) <= lim_vnfs@[id as int]->0 by {
                    if sol[base + v] is Some && sol[base + v]->0.id == id {
                        assert(count_vnfs@[id as int] == count_upto(sol, id, base + v + 1));
                    }
                }
            }
            v += 1;
        }
        proof {
            assert(server_ok(sol, aa_services@, s as int, vps as int)) by {
                if aa_service is Some {
                    assert forall|w: int| 0 <= w < vps && #[trigger] sol[s * vps + w] is Some
                        implies sol[s * vps + w]->0.service_id == aa_service->0 by {
                        assert(sol[base + w] is Some);
                    }
                }
            }
            assert((s + 1) * vps == s * vps + vps) by (nonlinear_arith);
        }
        s += 1;
    }
    // Every VNF must be placed at least once
    let mut i: usize = 0;
    while i < count_vnfs.len()
        invariant
            i <= count_vnfs@.len(),
            sol == solution@,
            nv == vnfs@.len(),
            count_vnfs@.len() == nv,
            sol.len() == dc.spec_vms(),
            dc.spec_vms() == num_servers * vps,
            forall|id: usize| id < nv ==> count_vnfs@[id as int] == count_upto(sol, id, num_servers * vps),
            forall|id: int| 0 <= id < i ==> count_vnfs@[id] != 0,
        decreases count_vnfs@.len() - i,
    {
        if count_vnfs[i] == 0 {
            proof {
                assert(count_upto(sol, i, dc.spec_vms()) == 0);
                assert(!feasible(sol, *dc, nv, aa_services@, lim_vnfs@)) by {
                    assert(i < nv);
                    assert(!(count_upto(sol, i, dc.spec_vms()) >= 1));
                }
            }
            return false;
        }
        i += 1;
    }
    proof {
        assert forall|id: usize| id < nv implies #[trigger] count_upto(sol, id, dc.spec_vms()) >= 1 by {
            assert(count_vnfs@[id as int] != 0);
        }
    }
    true
}

proof fn lemma_first_aa_stable(solution: Seq<Option<VNF>>, aa_services: Seq<bool>, base: int, n: int, m: int)
    requires
        n <= m,
        first_aa(solution, aa_services, base, n) is Some,
    ensures
        first_aa(solution, aa_services, base, m) == first_aa(solution, aa_services, base, n),
    decreases m - n,
{
    if n < m {
        lemma_first_aa_stable(solution, aa_services, base, n, m - 1);
    }
}

proof fn lemma_count_bounded(solution: Seq<Option<VNF>>, id: usize, m: int)
    requires
        m >= 0,
    ensures
        count_upto(solution, id, m) <= m,
    decreases m,
{
    if m > 0 {
        lemma_count_bounded(solution, id, m - 1);
    }
}

} // verus!
