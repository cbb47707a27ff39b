use vstd::prelude::*;

use crate::fat_tree::FatTree;
use crate::operators::{InitPop, Solution};
use crate::random::random_bool;
use crate::service::VNF;

verus! {

/// Random initial population of binary solutions: each position is set or not, at random.
pub struct BinaryInitialisation {
    pub solution_length: usize,
}

impl BinaryInitialisation {
    pub fn new(solution_length: usize) -> (b: BinaryInitialisation)
        ensures
            b.solution_length == solution_length,
    {
        BinaryInitialisation { solution_length }
    }
}

impl InitPop<()> for BinaryInitialisation {
    /// `pop_size` solutions of `solution_length` positions each; which positions are set is left
    /// to chance.
    fn apply(&self, pop_size: usize) -> (population: Vec<Solution<()>>)
        ensures
            population@.len() == pop_size,
            forall|i: int| 0 <= i < pop_size ==> #[trigger] population@[i]@.len() == self.solution_length,
    {
        let mut rng = rand::thread_rng();
        let mut population: Vec<Solution<()>> = Vec::new();
        let mut p: usize = 0;
        while p < pop_size
            invariant
                p <= pop_size,
                population@.len() == p,
                forall|i: int| 0 <= i < p ==> #[trigger] population@[i]@.len() == self.solution_length,
            decreases pop_size - p,
        {
            let mut new_solution: Vec<Option<()>> = Vec::new();
            let mut t: usize = 0;
            while t < self.solution_length
                invariant
                    t <= self.solution_length,
                    new_solution@.len() == t,
                decreases self.solution_length - t,
            {
                if random_bool(&mut rng) {
                    new_solution.push(Some(()));
                } else {
                    new_solution.push(None);
                }
                t += 1;
            }
            population.push(new_solution);
            p += 1;
        }
        population
    }
}

/// Reading a binary solution, position by position: position `i` stands for VNF `i % nv` on server
/// `i / nv`; each set position takes the next VM of its server while the server has one left.
/// Gives the number of set positions met so far on each server and the VM placement.
pub open spec fn normal_run(
    solution: Seq<Option<()>>,
    vnfs: Seq<VNF>,
    vm_k: int,
    num_servers: int,
    m: int,
) -> (Seq<int>, Seq<Option<VNF>>)
    decreases m,
{
    if m <= 0 {
        (Seq::new(num_servers as nat, |i: int| 0int), Seq::new((num_servers * vm_k) as nat, |i: int| None::<VNF>))
    } else {
        let (assigned, normal) = normal_run(solution, vnfs, vm_k, num_servers, m - 1);
        let i = m - 1;
        let nv = vnfs.len() as int;
        let server_id = i / nv;
        let asgnd = assigned[server_id];
        if solution[i] is Some {
            (
                assigned.update(server_id, asgnd + 1),
                if asgnd < vm_k {
                    normal.update(server_id * vm_k + asgnd, Some(vnfs[i % nv]))
                } else {
                    normal
                },
            )
        } else {
            (assigned, normal)
        }
    }
}

proof fn lemma_normal_run_shape(solution: Seq<Option<()>>, vnfs: Seq<VNF>, vm_k: int, num_servers: int, m: int)
    requires
        0 <= m,
        vm_k >= 0,
        num_servers >= 0,
        vnfs.len() > 0,
        m <= num_servers * vnfs.len(),
    ensures
        normal_run(solution, vnfs, vm_k, num_servers, m).0.len() == num_servers,
        normal_run(solution, vnfs, vm_k, num_servers, m).1.len() == num_servers * vm_k,
        forall|s: int| 0 <= s < num_servers ==> 0 <= #[trigger] normal_run(solution, vnfs, vm_k, num_servers, m).0[s] <= m,
    decreases m,
{
    if m > 0 {
        lemma_normal_run_shape(solution, vnfs, vm_k, num_servers, m - 1);
        let nv = vnfs.len() as int;
        assert(0 <= (m - 1) / nv < num_servers) by (nonlinear_arith)
            requires 0 <= m - 1 < num_servers * nv, nv > 0;
        let (assigned, normal) = normal_run(solution, vnfs, vm_k, num_servers, m - 1);
        let sid = (m - 1) / nv;
        if assigned[sid] < vm_k {
            assert(0 <= sid * vm_k + assigned[sid] < num_servers * vm_k) by (nonlinear_arith)
                requires 0 <= sid < num_servers, 0 <= assigned[sid] < vm_k;
        }
    }
}

/// Turns a binary solution (a set position per VNF per server) into a VM placement: on each
/// server, the VNFs of its set positions in order take its VMs in order, while VMs are left.
pub fn to_normal_solution(solution: &Solution<()>, dc: &FatTree, vnfs: &Vec<VNF>) -> (normal: Solution<VNF>)
    requires
        dc.fits(),
        vnfs@.len() > 0,
        solution@.len() <= dc.spec_servers() * vnfs@.len(),
    ensures
        normal@ == normal_run(solution@, vnfs@, dc.vms_per_server as int, dc.spec_servers(), solution@.len() as int).1,
{
    proof {
        dc.lemma_parts_bounded();
    }
    let num_servers = dc.num_servers();
    let num_vms = dc.num_vms();
    let num_vnfs = vnfs.len();
    let vm_k = dc.vms_per_server;
    let ghost ns = num_servers as int;
    let mut num_assigned: Vec<usize> = Vec::new();
    let mut t: usize = 0;
    while t < num_servers
        invariant
            t <= num_servers,
            num_assigned@ =~= Seq::new(t as nat, |i: int| 0usize),
        decreases num_servers - t,
    {
        num_assigned.push(0);
        t += 1;
    }
    let mut normal_solution: Vec<Option<VNF>> = Vec::new();
    let mut t: usize = 0;
    while t < num_vms
        invariant
            t <= num_vms,
            normal_solution@ =~= Seq::new(t as nat, |i: int| None::<VNF>),
        decreases num_vms - t,
    {
        normal_solution.push(None);
        t += 1;
    }
    proof {
        assert(num_assigned@.map_values(|x: usize| x as int) =~= normal_run(solution@, vnfs@, vm_k as int, ns, 0).0);
        assert(num_vms == ns * vm_k);
    }
    let mut i: usize = 0;
    while i < solution.len()
        invariant
            i <= solution@.len(),
            solution@.len() <= ns * num_vnfs,
            num_vnfs == vnfs@.len(),
            num_vnfs > 0,
            ns == num_servers,
            vm_k == dc.vms_per_server,
            num_vms == ns * vm_k,
            num_assigned@.map_values(|x: usize| x as int) == normal_run(solution@, vnfs@, vm_k as int, ns, i as int).0,
            normal_solution@ == normal_run(solution@, vnfs@, vm_k as int, ns, i as int).1,
        decreases solution@.len() - i,
    {
        proof {
            lemma_normal_run_shape(solution@, vnfs@, vm_k as int, ns, i as int);
            lemma_normal_run_shape(solution@, vnfs@, vm_k as int, ns, i as int + 1);
            assert(0 <= (i as int) / (num_vnfs as int) < ns) by (nonlinear_arith)
                requires 0 <= i < ns * num_vnfs, num_vnfs > 0;
        }
        let server_id = i / num_vnfs;
        let server_asgnd = num_assigned[server_id];
        let vnf_id = i % num_vnfs;
        proof {
            assert(server_asgnd == normal_run(solution@, vnfs@, vm_k as int, ns, i as int).0[server_id as int]);
        }
        if solution[i].is_some() {
            if server_asgnd < vm_k {
                let vm = vnfs[vnf_id];
                proof {
                    assert(0 <= server_id * vm_k + server_asgnd < ns * vm_k) by (nonlinear_arith)
                        requires 0 <= server_id < ns, 0 <= server_asgnd < vm_k;
                }
                let pos = server_id * vm_k + server_asgnd;
                normal_solution.set(pos, Some(vm));
            }
            num_assigned.set(server_id, server_asgnd + 1);
            proof {
                assert(num_assigned@.map_values(|x: usize| x as int) =~= normal_run(solution@, vnfs@, vm_k as int, ns,
                    i as int + 1).0);
            }
        }
        i += 1;
    }
    normal_solution
}

} // verus!
