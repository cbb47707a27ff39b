use vstd::prelude::*;

use crate::fat_tree::FatTree;
use crate::mapping::same_sequences;
use crate::operators::{first_aa, server_ok};
use crate::service::{slots_view, Service, ServiceView, VNF};

verus! {

/// `a` is empty, or what it holds passes `f`.
pub fn none_or<X, F>(a: &Option<X>, f: F) -> (b: bool)
    where
        F: Fn(&X) -> bool,
    requires
        a is Some ==> f.requires((&a->0,)),
    ensures
        a is None ==> b,
        a is Some ==> f.ensures((&a->0,), b),
{
    match a {
        None => true,
        Some(x) => f(x),
    }
}

/// The VM visited at step `t` of a scan of `n` VMs from `start`: up to the last VM, then back
/// down to the first.
pub open spec fn scan_pos(start: int, n: int, t: int) -> int {
    if start + t <= n - 1 {
        start + t
    } else {
        2 * (n - 1) - start - t
    }
}

/// A VM can take a VNF of service `sid`: it is free, and its server is not reserved for another
/// anti-affinity service.
pub open spec fn slot_open(sid: usize, cs: Seq<Option<VNF>>, aas: Seq<Option<usize>>, p: int, vps: int) -> bool {
    &&& cs[p] is None
    &&& (aas[p / vps] is None || aas[p / vps]->0 == sid)
}

/// The VNF may still be instantiated under its limit.
pub open spec fn instance_left(rem: Seq<Option<usize>>, id: usize) -> bool {
    rem[id as int] is None || rem[id as int]->0 > 0
}

/// The remaining instances after one more instance of VNF `id`: a limit drops by one, no limit
/// stays none.
pub open spec fn take_instance(rem: Seq<Option<usize>>, id: usize) -> Seq<Option<usize>> {
    match rem[id as int] {
        Some(c) => rem.update(id as int, Some((c - 1) as usize)),
        None => rem,
    }
}

/// One step of placing a service at VM `p`: when the VM is open the next VNF of the chain is
/// taken, and put there if its limit allows, which uses up one of its remaining instances.
pub open spec fn place_step(
    service: Service,
    p: int,
    vps: int,
    aa: Seq<bool>,
    rem: Seq<Option<usize>>,
    next: int,
    cs: Seq<Option<VNF>>,
    aas: Seq<Option<usize>>,
    seq: Seq<usize>,
) -> (int, Seq<Option<VNF>>, Seq<Option<usize>>, Seq<usize>, Seq<Option<usize>>) {
    if slot_open(service.id, cs, aas, p, vps) {
        let vnf = service.vnfs@[next];
        if instance_left(rem, vnf.id) {
            (
                next + 1,
                cs.update(p, Some(vnf)),
                if aa[service.id as int] {
                    aas.update(p / vps, Some(service.id))
                } else {
                    aas
                },
                seq.push(p as usize),
                take_instance(rem, vnf.id),
            )
        } else {
            (next + 1, cs, aas, seq, rem)
        }
    } else {
        (next, cs, aas, seq, rem)
    }
}

/// Placing a service by scanning the VMs from `start` up to the last and back down to the
/// first: the VMs its VNFs went to, when every VNF was taken before the scan ended, and the
/// placement, server reservations and remaining instances afterwards.
pub open spec fn place_run(
    service: Service,
    start: int,
    n: int,
    vps: int,
    aa: Seq<bool>,
    rem: Seq<Option<usize>>,
    next: int,
    cs: Seq<Option<VNF>>,
    aas: Seq<Option<usize>>,
    seq: Seq<usize>,
    t: int,
) -> (Option<Seq<usize>>, Seq<Option<VNF>>, Seq<Option<usize>>, Seq<Option<usize>>)
    decreases 2 * n - start - t,
{
    if t < 0 || t > 2 * (n - 1) - start {
        (None, cs, aas, rem)
    } else {
        let p = scan_pos(start, n, t);
        let (next2, cs2, aas2, seq2, rem2) = place_step(service, p, vps, aa, rem, next, cs, aas, seq);
        if next2 >= service.vnfs@.len() {
            (Some(seq2), cs2, aas2, rem2)
        } else if p == 0 && start + t > n - 1 {
            (None, cs2, aas2, rem2)
        } else {
            place_run(service, start, n, vps, aa, rem2, next2, cs2, aas2, seq2, t + 1)
        }
    }
}

/// What placing a service needs: a chain with VNFs whose ids and service are known, and a
/// placement of at least two VMs with a reservation slot for each server.
pub open spec fn placement_args(
    service: Service,
    n: int,
    vps: int,
    aa: Seq<bool>,
    rem: Seq<Option<usize>>,
    cs: Seq<Option<VNF>>,
    aas: Seq<Option<usize>>,
) -> bool {
    &&& service.vnfs@.len() > 0
    &&& service.id < aa.len()
    &&& forall|j: int| 0 <= j < service.vnfs@.len() ==> #[trigger] service.vnfs@[j].id < rem.len()
    &&& n >= 2
    &&& vps > 0
    &&& cs.len() == n
    &&& forall|p: int| 0 <= p < n ==> #[trigger] (p / vps) < aas.len()
}

proof fn lemma_div_le(p: int, vps: int, n: int)
    requires
        0 <= p < n,
        vps > 0,
    ensures
        0 <= p / vps <= (n - 1) / vps,
{
    assert(0 <= p / vps <= (n - 1) / vps) by (nonlinear_arith) requires 0 <= p < n, vps > 0;
}

fn place_service(
    service: &Service,
    start: usize,
    current_solution: &mut Vec<Option<VNF>>,
    aa_servers: &mut Vec<Option<usize>>,
    aa_services: &Vec<bool>,
    rem_instances: &mut Vec<Option<usize>>,
    fat_tree: &FatTree,
) -> (res: Option<Vec<usize>>)
    requires
        fat_tree.fits(),
        old(current_solution)@.len() == fat_tree.spec_vms(),
        start < fat_tree.spec_vms(),
        placement_args(
            *service,
            fat_tree.spec_vms(),
            fat_tree.vms_per_server as int,
            aa_services@,
            old(rem_instances)@,
            old(current_solution)@,
            old(aa_servers)@,
        ),
    ensures
        ({
            let r = place_run(*service, start as int, fat_tree.spec_vms(), fat_tree.vms_per_server as int,
                aa_services@, old(rem_instances)@, 0, old(current_solution)@, old(aa_servers)@, Seq::empty(), 0);
            &&& final(current_solution)@ == r.1
            &&& final(aa_servers)@ == r.2
            &&& final(rem_instances)@ == r.3
            &&& match res {
                Some(v) => r.0 == Some(v@),
                None => r.0 is None,
            }
        }),
{
    let ghost cs0 = current_solution@;
    let ghost aas0 = aa_servers@;
    let ghost rem0 = rem_instances@;
    let ghost n = fat_tree.spec_vms();
    let ghost vps = fat_tree.vms_per_server as int;
    let num_vms = fat_tree.num_vms();
    let vms_per_server = fat_tree.vms_per_server;
    let mut next: usize = 0;
    let mut descending = false;
    let mut curr = start;
    let mut sequence: Vec<usize> = Vec::new();
    let ghost mut t: int = 0;
    loop
        invariant
            n == num_vms,
            n == fat_tree.spec_vms(),
            vps == fat_tree.vms_per_server,
            cs0 == old(current_solution)@,
            aas0 == old(aa_servers)@,
            rem0 == old(rem_instances)@,
            n == current_solution@.len(),
            vps == vms_per_server,
            placement_args(*service, n, vps, aa_services@, rem_instances@, current_solution@, aa_servers@),
            aa_servers@.len() == aas0.len(),
            rem_instances@.len() == rem0.len(),
            0 <= t <= 2 * (n - 1) - start,
            curr == scan_pos(start as int, n, t),
            0 <= curr < n,
            descending == (start + t > n - 1),
            next < service.vnfs.len(),
            place_run(*service, start as int, n, vps, aa_services@, rem_instances@, next as int, current_solution@,
                aa_servers@, sequence@, t) == place_run(*service, start as int, n, vps, aa_services@,
                rem0, 0, cs0, aas0, Seq::empty(), 0),
        decreases 2 * n - start - t,
    {
        let ghost cs_before = current_solution@;
        let ghost aas_before = aa_servers@;
        let ghost seq_before = sequence@;
        let ghost rem_before = rem_instances@;
        let ghost next_before = next as int;
        proof {
            lemma_div_le(curr as int, vps, n);
            assert((curr as int / vps) < aa_servers@.len());
        }
        // Check server constraints
        let server = curr / vms_per_server;
        let sid = service.id;
        let open = current_solution[curr].is_none() && none_or(
            &aa_servers[server],
            (|s: &usize| -> (r: bool)
                ensures
                    r == (*s == sid),
                { *s == sid }),
        );
        if open {
            let vnf = service.vnfs[next];
            next = next + 1;
            if none_or(
                &rem_instances[vnf.id],
                (|num: &usize| -> (r: bool)
                    ensures
                        r == (*num > 0),
                    { *num > 0 }),
            ) {
                // Decrement remaining instances
                if let Some(num) = rem_instances[vnf.id] {
                    rem_instances.set(vnf.id, Some(num - 1));
                }
                current_solution.set(curr, Some(vnf));
                sequence.push(curr);
                if aa_services[service.id] {
                    aa_servers.set(server, Some(service.id));
                }
            }
        }
        proof {
            let st = place_step(*service, curr as int, vps, aa_services@, rem_before, next_before, cs_before,
                aas_before, seq_before);
            assert(st.0 == next as int);
            assert(st.1 == current_solution@);
            assert(st.2 == aa_servers@);
            assert(st.3 == sequence@);
            assert(st.4 == rem_instances@);
        }
        let ghost before = place_run(*service, start as int, n, vps, aa_services@, rem_before, next_before,
            cs_before, aas_before, seq_before, t);
        if next == service.vnfs.len() {
            assert(before == (Some(sequence@), current_solution@, aa_servers@, rem_instances@));
            return Some(sequence);  // Placed all VNFs
        }
        if curr == 0 && descending {
            assert(before == (None::<Seq<usize>>, current_solution@, aa_servers@, rem_instances@));
            return None;
        }
        assert(before == place_run(*service, start as int, n, vps, aa_services@, rem_instances@, next as int,
            current_solution@, aa_servers@, sequence@, t + 1));
        if curr == num_vms - 1 {
            descending = true;
        }
        if descending {
            curr = curr - 1;
        } else {
            curr = curr + 1;
        }
        proof {
            t = t + 1;
        }
    }
}

/// How many of the first `m` VMs a VNF of service `sid` could go to: free, on a server not
/// reserved for another service.
pub open spec fn count_open(sid: usize, cs: Seq<Option<VNF>>, aas: Seq<Option<usize>>, vps: int, m: int) -> int
    decreases m,
{
    if m <= 0 {
        0
    } else {
        count_open(sid, cs, aas, vps, m - 1) + (if slot_open(sid, cs, aas, m - 1, vps) {
            1int
        } else {
            0int
        })
    }
}

/// The step at which a scan from `start` over `n` VMs first reaches VM `v`.
spec fn first_visit(start: int, n: int, v: int) -> int {
    if v >= start {
        v - start
    } else {
        2 * (n - 1) - start - v
    }
}

/// The open VMs among the first `m` that the scan has not reached before step `t`.
spec fn open_ahead(
    sid: usize,
    cs: Seq<Option<VNF>>,
    aas: Seq<Option<usize>>,
    vps: int,
    start: int,
    n: int,
    t: int,
    m: int,
) -> int
    decreases m,
{
    if m <= 0 {
        0
    } else {
        open_ahead(sid, cs, aas, vps, start, n, t, m - 1) + (if first_visit(start, n, m - 1) >= t && slot_open(
            sid,
            cs,
            aas,
            m - 1,
            vps,
        ) {
            1int
        } else {
            0int
        })
    }
}

proof fn lemma_open_ahead_start(sid: usize, cs: Seq<Option<VNF>>, aas: Seq<Option<usize>>, vps: int, start: int, n: int, m: int)
    requires
        0 <= start < n,
        m <= n,
    ensures
        open_ahead(sid, cs, aas, vps, start, n, 0, m) == count_open(sid, cs, aas, vps, m),
    decreases m,
{
    if m > 0 {
        lemma_open_ahead_start(sid, cs, aas, vps, start, n, m - 1);
    }
}

proof fn lemma_open_ahead_done(
    sid: usize,
    cs: Seq<Option<VNF>>,
    aas: Seq<Option<usize>>,
    vps: int,
    start: int,
    n: int,
    t: int,
    m: int,
)
    requires
        0 <= start < n,
        m <= n,
        t > 2 * (n - 1) - start,
    ensures
        open_ahead(sid, cs, aas, vps, start, n, t, m) == 0,
    decreases m,
{
    if m > 0 {
        lemma_open_ahead_done(sid, cs, aas, vps, start, n, t, m - 1);
    }
}

/// Moving the scan one step on, to a state where only VM `p` may have changed whether it is
/// open, leaves out of the count exactly VM `p` if it was first reached and open at step `t`.
proof fn lemma_open_ahead_step(
    sid: usize,
    cs: Seq<Option<VNF>>,
    aas: Seq<Option<usize>>,
    cs2: Seq<Option<VNF>>,
    aas2: Seq<Option<usize>>,
    vps: int,
    start: int,
    n: int,
    t: int,
    p: int,
    m: int,
)
    requires
        0 <= start < n,
        0 <= p < n,
        m <= n,
        first_visit(start, n, p) <= t,
        forall|v: int| 0 <= v < n && v != p ==> first_visit(start, n, v) != t,
        forall|v: int| 0 <= v < n && v != p ==> #[trigger] slot_open(sid, cs2, aas2, v, vps) == slot_open(sid, cs, aas, v, vps),
    ensures
        open_ahead(sid, cs2, aas2, vps, start, n, t + 1, m) + (if p < m && first_visit(start, n, p) == t && slot_open(
            sid,
            cs,
            aas,
            p,
            vps,
        ) {
            1int
        } else {
            0int
        }) == open_ahead(sid, cs, aas, vps, start, n, t, m),
    decreases m,
{
    if m > 0 {
        lemma_open_ahead_step(sid, cs, aas, cs2, aas2, vps, start, n, t, p, m - 1);
        let v = m - 1;
        if v != p {
            assert(slot_open(sid, cs2, aas2, v, vps) == slot_open(sid, cs, aas, v, vps));
        }
    }
}

/// Placing a VNF at an open VM `p` leaves every other VM as open as it was for the service.
proof fn lemma_step_keeps_open(
    service: Service,
    p: int,
    vps: int,
    aa: Seq<bool>,
    rem: Seq<Option<usize>>,
    next: int,
    cs: Seq<Option<VNF>>,
    aas: Seq<Option<usize>>,
    seq: Seq<usize>,
    n: int,
)
    requires
        0 <= p < n,
        cs.len() == n,
        vps > 0,
        forall|q: int| 0 <= q < n ==> #[trigger] (q / vps) < aas.len(),
    ensures
        forall|v: int|
            0 <= v < n && v != p ==> #[trigger] slot_open(
                service.id,
                place_step(service, p, vps, aa, rem, next, cs, aas, seq).1,
                place_step(service, p, vps, aa, rem, next, cs, aas, seq).2,
                v,
                vps,
            ) == slot_open(service.id, cs, aas, v, vps),
        place_step(service, p, vps, aa, rem, next, cs, aas, seq).0 == next + (if slot_open(service.id, cs, aas, p, vps) {
            1int
        } else {
            0int
        }),
{
    let (next2, cs2, aas2, seq2, rem2) = place_step(service, p, vps, aa, rem, next, cs, aas, seq);
    assert forall|v: int| 0 <= v < n && v != p implies #[trigger] slot_open(service.id, cs2, aas2, v, vps) == slot_open(
        service.id,
        cs,
        aas,
        v,
        vps,
    ) by {
        assert(v / vps < aas.len());
        assert(p / vps < aas.len());
        if slot_open(service.id, cs, aas, p, vps) && instance_left(rem, service.vnfs@[next].id) {
            assert(cs2[v] == cs[v]);
        }
    }
}

/// The scan from step `t` places the rest of the chain whenever the VNFs still to place are no
/// more than the open VMs it has not reached yet.
proof fn lemma_run_finds_room(
    service: Service,
    start: int,
    n: int,
    vps: int,
    aa: Seq<bool>,
    rem: Seq<Option<usize>>,
    next: int,
    cs: Seq<Option<VNF>>,
    aas: Seq<Option<usize>>,
    seq: Seq<usize>,
    t: int,
)
    requires
        0 <= next < service.vnfs@.len(),
        0 <= t,
        0 <= start < n,
        cs.len() == n,
        vps > 0,
        forall|q: int| 0 <= q < n ==> #[trigger] (q / vps) < aas.len(),
        next + open_ahead(service.id, cs, aas, vps, start, n, t, n) >= service.vnfs@.len(),
    ensures
        place_run(service, start, n, vps, aa, rem, next, cs, aas, seq, t).0 is Some,
    decreases 2 * n - start - t,
{
    let sid = service.id;
    if t > 2 * (n - 1) - start {
        lemma_open_ahead_done(sid, cs, aas, vps, start, n, t, n);
    } else {
        let p = scan_pos(start, n, t);
        let (next2, cs2, aas2, seq2, rem2) = place_step(service, p, vps, aa, rem, next, cs, aas, seq);
        lemma_step_keeps_open(service, p, vps, aa, rem, next, cs, aas, seq, n);
        lemma_open_ahead_step(sid, cs, aas, cs2, aas2, vps, start, n, t, p, n);
        if next2 >= service.vnfs@.len() {
        } else if p == 0 && start + t > n - 1 {
            lemma_open_ahead_done(sid, cs2, aas2, vps, start, n, t + 1, n);
        } else {
            lemma_run_finds_room(service, start, n, vps, aa, rem2, next2, cs2, aas2, seq2, t + 1);
        }
    }
}

/// Placing a service scans every VM: from its start up to the last VM, then back down to the
/// first. So a chain is left unplaced only when the data centre has fewer VMs open to its service
/// than it has VNFs, whatever VM the scan starts from.
pub proof fn lemma_place_finds_room(
    service: Service,
    start: int,
    n: int,
    vps: int,
    aa: Seq<bool>,
    rem: Seq<Option<usize>>,
    cs: Seq<Option<VNF>>,
    aas: Seq<Option<usize>>,
)
    requires
        placement_args(service, n, vps, aa, rem, cs, aas),
        0 <= start < n,
        count_open(service.id, cs, aas, vps, n) >= service.vnfs@.len(),
    ensures
        place_run(service, start, n, vps, aa, rem, 0, cs, aas, Seq::empty(), 0).0 is Some,
{
    lemma_open_ahead_start(service.id, cs, aas, vps, start, n, n);
    lemma_run_finds_room(service, start, n, vps, aa, rem, 0, cs, aas, Seq::empty(), 0);
}

proof fn lemma_run_contiguous(
    service: Service,
    start: int,
    n: int,
    vps: int,
    aa: Seq<bool>,
    rem: Seq<Option<usize>>,
    cs: Seq<Option<VNF>>,
    aas: Seq<Option<usize>>,
    seq: Seq<usize>,
    t: int,
)
    requires
        0 <= t < service.vnfs@.len(),
        0 <= start,
        start + service.vnfs@.len() <= n,
        cs.len() == n,
        vps > 0,
        forall|q: int| 0 <= q < n ==> #[trigger] (q / vps) < aas.len(),
        forall|v: int| start + t <= v < start + service.vnfs@.len() ==> #[trigger] slot_open(service.id, cs, aas, v, vps),
        forall|j: int| 0 <= j < service.vnfs@.len() ==> #[trigger] rem[service.vnfs@[j].id as int] is None,
        seq == Seq::new(t as nat, |i: int| (start + i) as usize),
        forall|i: int| 0 <= i < t ==> #[trigger] cs[start + i] == Some(service.vnfs@[i]),
    ensures
        ({
            let r = place_run(service, start, n, vps, aa, rem, t, cs, aas, seq, t);
            &&& r.0 == Some(Seq::new(service.vnfs@.len(), |i: int| (start + i) as usize))
            &&& forall|i: int| 0 <= i < service.vnfs@.len() ==> #[trigger] r.1[start + i] == Some(service.vnfs@[i])
        }),
    decreases service.vnfs@.len() - t,
{
    let len = service.vnfs@.len() as int;
    let p = start + t;
    assert(scan_pos(start, n, t) == p);
    assert(slot_open(service.id, cs, aas, p, vps));
    assert(rem[service.vnfs@[t].id as int] is None);
    let (next2, cs2, aas2, seq2, rem2) = place_step(service, p, vps, aa, rem, t, cs, aas, seq);
    lemma_step_keeps_open(service, p, vps, aa, rem, t, cs, aas, seq, n);
    assert(cs2 == cs.update(p, Some(service.vnfs@[t])));
    assert(rem2 == rem);
    assert(seq2 =~= Seq::new((t + 1) as nat, |i: int| (start + i) as usize));
    assert forall|i: int| 0 <= i < t + 1 implies #[trigger] cs2[start + i] == Some(service.vnfs@[i]) by {
        if i < t {
            assert(cs[start + i] == Some(service.vnfs@[i]));
        }
    }
    if t + 1 < len {
        assert forall|v: int| start + t + 1 <= v < start + len implies #[trigger] slot_open(service.id, cs2, aas2, v, vps) by {
            assert(slot_open(service.id, cs, aas, v, vps));
        }
        lemma_run_contiguous(service, start, n, vps, aa, rem2, cs2, aas2, seq2, t + 1);
    }
}

/// Placing a service is first-feasible from its start: when the VMs from the start on are open
/// for as many VNFs as the chain has, and no VNF of the chain has an instance limit, the chain
/// goes onto exactly those VMs, in stage order.
pub proof fn lemma_place_from_start(
    service: Service,
    start: int,
    n: int,
    vps: int,
    aa: Seq<bool>,
    rem: Seq<Option<usize>>,
    cs: Seq<Option<VNF>>,
    aas: Seq<Option<usize>>,
)
    requires
        placement_args(service, n, vps, aa, rem, cs, aas),
        0 <= start,
        start + service.vnfs@.len() <= n,
        forall|v: int| start <= v < start + service.vnfs@.len() ==> #[trigger] slot_open(service.id, cs, aas, v, vps),
        forall|j: int| 0 <= j < service.vnfs@.len() ==> #[trigger] rem[service.vnfs@[j].id as int] is None,
    ensures
        ({
            let r = place_run(service, start, n, vps, aa, rem, 0, cs, aas, Seq::empty(), 0);
            &&& r.0 == Some(Seq::new(service.vnfs@.len(), |i: int| (start + i) as usize))
            &&& forall|i: int| 0 <= i < service.vnfs@.len() ==> #[trigger] r.1[start + i] == Some(service.vnfs@[i])
        }),
{
    assert(Seq::<usize>::empty() =~= Seq::new(0, |i: int| (start + i) as usize));
    lemma_run_contiguous(service, start, n, vps, aa, rem, cs, aas, Seq::empty(), 0);
}

proof fn lemma_place_run_lens(
    service: Service,
    start: int,
    n: int,
    vps: int,
    aa: Seq<bool>,
    rem: Seq<Option<usize>>,
    next: int,
    cs: Seq<Option<VNF>>,
    aas: Seq<Option<usize>>,
    seq: Seq<usize>,
    t: int,
)
    requires
        0 <= next < service.vnfs@.len(),
        vps > 0,
        0 <= start < n,
        cs.len() == n,
        forall|p: int| 0 <= p < n ==> #[trigger] (p / vps) < aas.len(),
        forall|j: int| 0 <= j < service.vnfs@.len() ==> #[trigger] service.vnfs@[j].id < rem.len(),
    ensures
        place_run(service, start, n, vps, aa, rem, next, cs, aas, seq, t).1.len() == cs.len(),
        place_run(service, start, n, vps, aa, rem, next, cs, aas, seq, t).2.len() == aas.len(),
        place_run(service, start, n, vps, aa, rem, next, cs, aas, seq, t).3.len() == rem.len(),
    decreases 2 * n - start - t,
{
    if t < 0 || t > 2 * (n - 1) - start {
    } else {
        let p = scan_pos(start, n, t);
        let (next2, cs2, aas2, seq2, rem2) = place_step(service, p, vps, aa, rem, next, cs, aas, seq);
        if next2 >= service.vnfs@.len() {
        } else if p == 0 && start + t > n - 1 {
        } else {
            lemma_place_run_lens(service, start, n, vps, aa, rem2, next2, cs2, aas2, seq2, t + 1);
        }
    }
}

/// The service in slot `i` takes part in this pass of the expansion.
pub open spec fn eligible(service: Service, aa: Seq<bool>, aa_only: bool, do_cnstr_handling: bool) -> bool {
    !((aa[service.id as int] != aa_only) && do_cnstr_handling)
}

/// Placing, in order of slot, each service of the first `m` slots of the intermediate solution
/// that takes part in the pass, each from the server of its slot: the chains that were placed
/// completely, and the placement, server reservations and remaining instances afterwards.
pub open spec fn ff_run(
    intm: Seq<Option<Service>>,
    n: int,
    vps: int,
    aa: Seq<bool>,
    rem: Seq<Option<usize>>,
    aa_only: bool,
    do_cnstr_handling: bool,
    cs: Seq<Option<VNF>>,
    aas: Seq<Option<usize>>,
    m: int,
) -> (Seq<(usize, Seq<usize>)>, Seq<Option<VNF>>, Seq<Option<usize>>, Seq<Option<usize>>)
    decreases m,
{
    if m <= 0 {
        (Seq::empty(), cs, aas, rem)
    } else {
        let (seqs, cs1, aas1, rem1) = ff_run(intm, n, vps, aa, rem, aa_only, do_cnstr_handling, cs, aas, m - 1);
        match intm[m - 1] {
            None => (seqs, cs1, aas1, rem1),
            Some(svc) => if eligible(svc, aa, aa_only, do_cnstr_handling) {
                let (r, cs2, aas2, rem2) = place_run(svc, (m - 1) / vps, n, vps, aa, rem1, 0, cs1, aas1, Seq::empty(),
                    0);
                (
                    match r {
                        Some(q) => seqs.push((svc.id, q)),
                        None => seqs,
                    },
                    cs2,
                    aas2,
                    rem2,
                )
            } else {
                (seqs, cs1, aas1, rem1)
            },
        }
    }
}

/// One pass of first-feasible placement: anti-affinity services only, or the others.
pub open spec fn first_feasible_spec(
    intm: Seq<Option<Service>>,
    n: int,
    vps: int,
    aa: Seq<bool>,
    rem: Seq<Option<usize>>,
    aa_only: bool,
    do_cnstr_handling: bool,
    cs: Seq<Option<VNF>>,
    aas: Seq<Option<usize>>,
) -> (Seq<(usize, Seq<usize>)>, Seq<Option<VNF>>, Seq<Option<usize>>, Seq<Option<usize>>) {
    if aa_only && !do_cnstr_handling {
        (Seq::empty(), cs, aas, rem)
    } else {
        ff_run(intm, n, vps, aa, rem, aa_only, do_cnstr_handling, cs, aas, n)
    }
}

/// What expanding an intermediate solution needs: a slot for every VM, and in each slot a service
/// with VNFs whose ids and service are known.
pub open spec fn expansion_args(
    intm: Seq<Option<Service>>,
    ft: FatTree,
    aa: Seq<bool>,
    rem: Seq<Option<usize>>,
) -> bool {
    &&& ft.fits()
    &&& intm.len() >= ft.spec_vms()
    &&& forall|i: int|
        0 <= i < ft.spec_vms() && #[trigger] intm[i] is Some ==> {
            let svc = intm[i]->0;
            &&& svc.vnfs@.len() > 0
            &&& svc.id < aa.len()
            &&& forall|j: int| 0 <= j < svc.vnfs@.len() ==> #[trigger] svc.vnfs@[j].id < rem.len()
        }
}

proof fn lemma_expansion_shape(ft: FatTree)
    requires
        ft.spec_vms() > 0,
    ensures
        ft.spec_vms() >= 2,
        ft.vms_per_server > 0,
        forall|p: int| 0 <= p < ft.spec_vms() ==> #[trigger] (p / (ft.vms_per_server as int)) < ft.spec_servers(),
{
    ft.lemma_parts_bounded();
    let k = ft.num_ports as int;
    let v = ft.vms_per_server as int;
    let s = ft.spec_servers();
    if v == 0 {
        assert(s * v == 0) by (nonlinear_arith) requires v == 0;
    }
    if s == 0 {
        assert(s * v == 0) by (nonlinear_arith) requires s == 0;
    }
    // a server at all needs k >= 2 ports, and then there are at least two servers
    if k <= 1 {
        assert(k * k * k <= 1) by (nonlinear_arith) requires 0 <= k <= 1;
    }
    assert(k * k * k >= 8) by (nonlinear_arith) requires k >= 2;
    assert(ft.spec_vms() >= 2) by (nonlinear_arith)
        requires ft.spec_vms() == s * v, s >= 2, v > 0;
    assert forall|p: int| 0 <= p < ft.spec_vms() implies #[trigger] (p / v) < ft.spec_servers() by {
        assert(p / v < ft.spec_servers()) by (nonlinear_arith)
            requires 0 <= p < ft.spec_servers() * v, v > 0;
    }
}

/// Expansion needs of the remaining instances only their number.
proof fn lemma_expansion_args_rem(
    intm: Seq<Option<Service>>,
    ft: FatTree,
    aa: Seq<bool>,
    rem: Seq<Option<usize>>,
    rem2: Seq<Option<usize>>,
)
    requires
        expansion_args(intm, ft, aa, rem),
        rem2.len() == rem.len(),
    ensures
        expansion_args(intm, ft, aa, rem2),
{
    assert forall|i: int| 0 <= i < ft.spec_vms() && #[trigger] intm[i] is Some implies {
        let svc = intm[i]->0;
        &&& svc.vnfs@.len() > 0
        &&& svc.id < aa.len()
        &&& forall|j: int| 0 <= j < svc.vnfs@.len() ==> #[trigger] svc.vnfs@[j].id < rem2.len()
    } by {
        let svc = intm[i]->0;
        assert forall|j: int| 0 <= j < svc.vnfs@.len() implies #[trigger] svc.vnfs@[j].id < rem2.len() by {
            assert(svc.vnfs@[j].id < rem.len());
        }
    }
}

fn first_feasible(
    intm_solution: &Vec<Option<Service>>,
    current_solution: &mut Vec<Option<VNF>>,
    aa_servers: &mut Vec<Option<usize>>,
    aa_services: &Vec<bool>,
    max_instances: &mut Vec<Option<usize>>,
    fat_tree: &FatTree,
    aa_only: bool,
    do_cnstr_handling: bool,
) -> (sequences: Vec<(usize, Vec<usize>)>)
    requires
        expansion_args(intm_solution@, *fat_tree, aa_services@, old(max_instances)@),
        old(current_solution)@.len() == fat_tree.spec_vms(),
        old(aa_servers)@.len() == fat_tree.spec_servers(),
    ensures
        ({
            let (seqs, cs, aas, rem) = first_feasible_spec(intm_solution@, fat_tree.spec_vms(),
                fat_tree.vms_per_server as int, aa_services@, old(max_instances)@, aa_only, do_cnstr_handling,
                old(current_solution)@, old(aa_servers)@);
            &&& same_sequences(sequences@, seqs)
            &&& final(current_solution)@ == cs
            &&& final(aa_servers)@ == aas
            &&& final(max_instances)@ == rem
        }),
{
    let mut sequences: Vec<(usize, Vec<usize>)> = Vec::new();
    // No need for extra balance handling
    if aa_only && !do_cnstr_handling {
        return sequences;
    }
    let ghost cs0 = current_solution@;
    let ghost aas0 = aa_servers@;
    let ghost rem0 = max_instances@;
    let ghost n = fat_tree.spec_vms();
    let ghost vps = fat_tree.vms_per_server as int;
    let num_vms = fat_tree.num_vms();
    proof {
        if n > 0 {
            lemma_expansion_shape(*fat_tree);
        }
    }
    let mut i: usize = 0;
    while i < num_vms
        invariant
            n == num_vms,
            n == fat_tree.spec_vms(),
            vps == fat_tree.vms_per_server,
            fat_tree.fits(),
            n > 0 ==> n >= 2 && vps > 0,
            forall|p: int| 0 <= p < n ==> #[trigger] (p / vps) < fat_tree.spec_servers(),
            expansion_args(intm_solution@, *fat_tree, aa_services@, max_instances@),
            max_instances@.len() == rem0.len(),
            i <= n,
            current_solution@.len() == n,
            aa_servers@.len() == fat_tree.spec_servers(),
            cs0 == old(current_solution)@,
            aas0 == old(aa_servers)@,
            rem0 == old(max_instances)@,
            ({
                let (seqs, cs, aas, rem) = ff_run(intm_solution@, n, vps, aa_services@, rem0, aa_only,
                    do_cnstr_handling, cs0, aas0, i as int);
                &&& same_sequences(sequences@, seqs)
                &&& current_solution@ == cs
                &&& aa_servers@ == aas
                &&& max_instances@ == rem
            }),
        decreases n - i,
    {
        if let Some(service) = &intm_solution[i] {
            proof {
                assert(intm_solution@[i as int] is Some);
            }
            if !((aa_services[service.id] != aa_only) && do_cnstr_handling) {
                let pos = i / fat_tree.vms_per_server;  // Automatically rounds down
                let ghost cs1 = current_solution@;
                let ghost aas1 = aa_servers@;
                let ghost rem1 = max_instances@;
                proof {
                    assert((i as int) / vps <= i as int) by (nonlinear_arith) requires vps > 0, i >= 0;
                    lemma_place_run_lens(*service, pos as int, n, vps, aa_services@, rem1, 0, cs1, aas1,
                        Seq::empty(), 0);
                }
                let maybe_sequence = place_service(
                    service,
                    pos,
                    current_solution,
                    aa_servers,
                    aa_services,
                    max_instances,
                    fat_tree,
                );
                proof {
                    lemma_expansion_args_rem(intm_solution@, *fat_tree, aa_services@, rem1, max_instances@);
                }
                if let Some(sequence) = maybe_sequence {
                    sequences.push((service.id, sequence));
                }
            }
        }
        i += 1;
    }
    sequences
}

/// Expanding an intermediate solution: first the anti-affinity services, then the others, each
/// placed first-feasible from its slot's server, the second pass with the instances the first
/// left; the chains placed and the VM placement.
pub open spec fn expand_spec(
    intm: Seq<Option<Service>>,
    ft: FatTree,
    aa: Seq<bool>,
    rem: Seq<Option<usize>>,
    do_cnstr_handling: bool,
) -> (Seq<(usize, Seq<usize>)>, Seq<Option<VNF>>) {
    let n = ft.spec_vms();
    let vps = ft.vms_per_server as int;
    let cs0 = Seq::new(n as nat, |i: int| None::<VNF>);
    let aas0 = Seq::new(ft.spec_servers() as nat, |i: int| None::<usize>);
    let (s1, cs1, aas1, rem1) = first_feasible_spec(intm, n, vps, aa, rem, true, do_cnstr_handling, cs0, aas0);
    let (s2, cs2, aas2, rem2) = first_feasible_spec(intm, n, vps, aa, rem1, false, do_cnstr_handling, cs1, aas1);
    (s1 + s2, cs2)
}

/// Turns an intermediate solution (a service per slot) into VNF placements and service chains.
/// Each VNF placed uses up one of the instances `max_instances` allows it. The caller balances
/// the intermediate solution first where that is wanted (`balance_census` and `balance_apply`).
pub fn expand_solution(
    intermediate_solution: &Vec<Option<Service>>,
    fat_tree: &FatTree,
    services: &Vec<Service>,
    aa_services: &Vec<bool>,
    max_instances: &Vec<Option<usize>>,
    do_cnstr_handling: bool,
) -> (res: (Vec<(usize, Vec<usize>)>, Vec<Option<VNF>>))
    requires
        expansion_args(intermediate_solution@, *fat_tree, aa_services@, max_instances@),
    ensures
        same_sequences(res.0@, expand_spec(intermediate_solution@, *fat_tree, aa_services@, max_instances@,
            do_cnstr_handling).0),
        res.1@ == expand_spec(intermediate_solution@, *fat_tree, aa_services@, max_instances@,
            do_cnstr_handling).1,
{
    let num_vms = fat_tree.num_vms();
    let num_servers = fat_tree.num_servers();
    let mut solution: Vec<Option<VNF>> = Vec::new();
    let mut i: usize = 0;
    while i < num_vms
        invariant
            i <= num_vms,
            solution@ =~= Seq::new(i as nat, |j: int| None::<VNF>),
        decreases num_vms - i,
    {
        solution.push(None);
        i += 1;
    }
    let mut aa_servers: Vec<Option<usize>> = Vec::new();
    let mut i: usize = 0;
    while i < num_servers
        invariant
            i <= num_servers,
            aa_servers@ =~= Seq::new(i as nat, |j: int| None::<usize>),
        decreases num_servers - i,
    {
        aa_servers.push(None);
        i += 1;
    }
    // Each placement uses up one of the VNF's remaining instances
    let mut remaining: Vec<Option<usize>> = Vec::new();
    let mut i: usize = 0;
    while i < max_instances.len()
        invariant
            i <= max_instances@.len(),
            remaining@ == max_instances@.subrange(0, i as int),
        decreases max_instances@.len() - i,
    {
        remaining.push(max_instances[i]);
        i += 1;
    }
    assert(remaining@ =~= max_instances@);
    // First feasible: anti-affinity services
    let mut aa_sequences = first_feasible(
        intermediate_solution,
        &mut solution,
        &mut aa_servers,
        aa_services,
        &mut remaining,
        fat_tree,
        true,
        do_cnstr_handling,
    );
    proof {
        let n = fat_tree.spec_vms();
        lemma_ff_lens(intermediate_solution@, *fat_tree, aa_services@, max_instances@, true, do_cnstr_handling,
            Seq::new(n as nat, |j: int| None::<VNF>), Seq::new(fat_tree.spec_servers() as nat, |j: int| None::<usize>));
        lemma_expansion_args_rem(intermediate_solution@, *fat_tree, aa_services@, max_instances@, remaining@);
    }
    // First feasible: other services
    let mut ot_sequences = first_feasible(
        intermediate_solution,
        &mut solution,
        &mut aa_servers,
        aa_services,
        &mut remaining,
        fat_tree,
        false,
        do_cnstr_handling,
    );
    let ghost a = aa_sequences@;
    let ghost o = ot_sequences@;
    aa_sequences.append(&mut ot_sequences);
    proof {
        let (s1, cs1, aas1, rem1) = first_feasible_spec(intermediate_solution@, fat_tree.spec_vms(),
            fat_tree.vms_per_server as int, aa_services@, max_instances@, true, do_cnstr_handling,
            Seq::new(fat_tree.spec_vms() as nat, |j: int| None::<VNF>),
            Seq::new(fat_tree.spec_servers() as nat, |j: int| None::<usize>));
        let (s2, cs2, aas2, rem2) = first_feasible_spec(intermediate_solution@, fat_tree.spec_vms(),
            fat_tree.vms_per_server as int, aa_services@, rem1, false, do_cnstr_handling, cs1, aas1);
        assert(aa_sequences@ =~= a + o);
        assert forall|k: int| 0 <= k < aa_sequences@.len() implies aa_sequences@[k].0 == (s1 + s2)[k].0
            && aa_sequences@[k].1@ == (s1 + s2)[k].1 by {
            if k < a.len() {
            } else {
                assert(aa_sequences@[k] == o[k - a.len()]);
            }
        }
    }
    (aa_sequences, solution)
}

/// A pass of first-feasible placement keeps the lengths of the placement, the reservations and
/// the remaining instances.
proof fn lemma_ff_lens(
    intm: Seq<Option<Service>>,
    ft: FatTree,
    aa: Seq<bool>,
    rem: Seq<Option<usize>>,
    aa_only: bool,
    do_cnstr_handling: bool,
    cs: Seq<Option<VNF>>,
    aas: Seq<Option<usize>>,
)
    requires
        expansion_args(intm, ft, aa, rem),
        cs.len() == ft.spec_vms(),
        aas.len() == ft.spec_servers(),
    ensures
        first_feasible_spec(intm, ft.spec_vms(), ft.vms_per_server as int, aa, rem, aa_only, do_cnstr_handling, cs,
            aas).1.len() == cs.len(),
        first_feasible_spec(intm, ft.spec_vms(), ft.vms_per_server as int, aa, rem, aa_only, do_cnstr_handling, cs,
            aas).2.len() == aas.len(),
        first_feasible_spec(intm, ft.spec_vms(), ft.vms_per_server as int, aa, rem, aa_only, do_cnstr_handling, cs,
            aas).3.len() == rem.len(),
{
    lemma_ff_lens_upto(intm, ft, aa, rem, aa_only, do_cnstr_handling, cs, aas, ft.spec_vms());
}

proof fn lemma_ff_lens_upto(
    intm: Seq<Option<Service>>,
    ft: FatTree,
    aa: Seq<bool>,
    rem: Seq<Option<usize>>,
    aa_only: bool,
    do_cnstr_handling: bool,
    cs: Seq<Option<VNF>>,
    aas: Seq<Option<usize>>,
    m: int,
)
    requires
        expansion_args(intm, ft, aa, rem),
        cs.len() == ft.spec_vms(),
        aas.len() == ft.spec_servers(),
        m <= ft.spec_vms(),
    ensures
        ff_run(intm, ft.spec_vms(), ft.vms_per_server as int, aa, rem, aa_only, do_cnstr_handling, cs, aas, m).1.len()
            == cs.len(),
        ff_run(intm, ft.spec_vms(), ft.vms_per_server as int, aa, rem, aa_only, do_cnstr_handling, cs, aas, m).2.len()
            == aas.len(),
        ff_run(intm, ft.spec_vms(), ft.vms_per_server as int, aa, rem, aa_only, do_cnstr_handling, cs, aas, m).3.len()
            == rem.len(),
    decreases m,
{
    let n = ft.spec_vms();
    let vps = ft.vms_per_server as int;
    if n > 0 {
        lemma_expansion_shape(ft);
    }
    if m > 0 {
        lemma_ff_lens_upto(intm, ft, aa, rem, aa_only, do_cnstr_handling, cs, aas, m - 1);
        let (seqs, cs1, aas1, rem1) = ff_run(intm, n, vps, aa, rem, aa_only, do_cnstr_handling, cs, aas, m - 1);
        match intm[m - 1] {
            None => {},
            Some(svc) => {
                if eligible(svc, aa, aa_only, do_cnstr_handling) {
                    assert(intm[m - 1] is Some);
                    assert forall|j: int| 0 <= j < svc.vnfs@.len() implies #[trigger] svc.vnfs@[j].id < rem1.len() by {
                        assert(intm[m - 1]->0.vnfs@[j].id < rem.len());
                    }
                    assert((m - 1) / vps <= m - 1) by (nonlinear_arith) requires vps > 0, m >= 1;
                    assert(0 <= (m - 1) / vps) by (nonlinear_arith) requires vps > 0, m >= 1;
                    lemma_place_run_lens(svc, (m - 1) / vps, n, vps, aa, rem1, 0, cs1, aas1, Seq::empty(), 0);
                }
            },
        }
    }
}

/// How many of the first `m` VMs hold an instance of VNF `id`.
pub open spec fn count_instances(cs: Seq<Option<VNF>>, id: usize, m: int) -> int
    decreases m,
{
    if m <= 0 {
        0
    } else {
        count_instances(cs, id, m - 1) + (if cs[m - 1] is Some && cs[m - 1]->0.id == id {
            1int
        } else {
            0int
        })
    }
}

proof fn lemma_count_free(cs: Seq<Option<VNF>>, p: int, x: VNF, id: usize, m: int)
    requires
        0 <= p < cs.len(),
        cs[p] is None,
        m <= cs.len(),
    ensures
        count_instances(cs.update(p, Some(x)), id, m) == count_instances(cs, id, m) + (if p < m && x.id == id {
            1int
        } else {
            0int
        }),
    decreases m,
{
    if m > 0 {
        lemma_count_free(cs, p, x, id, m - 1);
    }
}

proof fn lemma_count_empty(n: int, id: usize, m: int)
    requires
        0 <= m <= n,
    ensures
        count_instances(Seq::new(n as nat, |i: int| None::<VNF>), id, m) == 0,
    decreases m,
{
    if m > 0 {
        lemma_count_empty(n, id, m - 1);
    }
}

/// From `(cs, rem)` to `(cs2, rem2)` every limited VNF stays limited, and what it lost of its
/// remaining instances it gained in VMs.
pub open spec fn limits_kept(
    cs: Seq<Option<VNF>>,
    rem: Seq<Option<usize>>,
    cs2: Seq<Option<VNF>>,
    rem2: Seq<Option<usize>>,
) -> bool {
    &&& cs2.len() == cs.len()
    &&& rem2.len() == rem.len()
    &&& forall|id: usize|
        id < rem.len() && #[trigger] rem[id as int] is Some ==> rem2[id as int] is Some && count_instances(
            cs2,
            id,
            cs2.len() as int,
        ) + rem2[id as int]->0 == count_instances(cs, id, cs.len() as int) + rem[id as int]->0
}

proof fn lemma_limits_kept_trans(
    cs: Seq<Option<VNF>>,
    rem: Seq<Option<usize>>,
    cs2: Seq<Option<VNF>>,
    rem2: Seq<Option<usize>>,
    cs3: Seq<Option<VNF>>,
    rem3: Seq<Option<usize>>,
)
    requires
        limits_kept(cs, rem, cs2, rem2),
        limits_kept(cs2, rem2, cs3, rem3),
    ensures
        limits_kept(cs, rem, cs3, rem3),
{
    assert forall|id: usize| id < rem.len() && #[trigger] rem[id as int] is Some implies rem3[id as int] is Some
        && count_instances(cs3, id, cs3.len() as int) + rem3[id as int]->0 == count_instances(
        cs,
        id,
        cs.len() as int,
    ) + rem[id as int]->0 by {
        assert(rem2[id as int] is Some);
    }
}

proof fn lemma_step_keeps_limits(
    service: Service,
    p: int,
    vps: int,
    aa: Seq<bool>,
    rem: Seq<Option<usize>>,
    next: int,
    cs: Seq<Option<VNF>>,
    aas: Seq<Option<usize>>,
    seq: Seq<usize>,
)
    requires
        0 <= p < cs.len(),
        0 <= next < service.vnfs@.len(),
        service.vnfs@[next].id < rem.len(),
    ensures
        limits_kept(
            cs,
            rem,
            place_step(service, p, vps, aa, rem, next, cs, aas, seq).1,
            place_step(service, p, vps, aa, rem, next, cs, aas, seq).4,
        ),
{
    let (next2, cs2, aas2, seq2, rem2) = place_step(service, p, vps, aa, rem, next, cs, aas, seq);
    if slot_open(service.id, cs, aas, p, vps) && instance_left(rem, service.vnfs@[next].id) {
        let x = service.vnfs@[next];
        assert forall|id: usize| id < rem.len() && #[trigger] rem[id as int] is Some implies rem2[id as int] is Some
            && count_instances(cs2, id, cs2.len() as int) + rem2[id as int]->0 == count_instances(
            cs,
            id,
            cs.len() as int,
        ) + rem[id as int]->0 by {
            lemma_count_free(cs, p, x, id, cs.len() as int);
            if id != x.id {
                assert(rem2[id as int] == rem[id as int]);
            }
        }
    }
}

proof fn lemma_run_keeps_limits(
    service: Service,
    start: int,
    n: int,
    vps: int,
    aa: Seq<bool>,
    rem: Seq<Option<usize>>,
    next: int,
    cs: Seq<Option<VNF>>,
    aas: Seq<Option<usize>>,
    seq: Seq<usize>,
    t: int,
)
    requires
        0 <= next < service.vnfs@.len(),
        0 <= start < n,
        cs.len() == n,
        forall|j: int| 0 <= j < service.vnfs@.len() ==> #[trigger] service.vnfs@[j].id < rem.len(),
    ensures
        limits_kept(
            cs,
            rem,
            place_run(service, start, n, vps, aa, rem, next, cs, aas, seq, t).1,
            place_run(service, start, n, vps, aa, rem, next, cs, aas, seq, t).3,
        ),
    decreases 2 * n - start - t,
{
    if t < 0 || t > 2 * (n - 1) - start {
    } else {
        let p = scan_pos(start, n, t);
        lemma_step_keeps_limits(service, p, vps, aa, rem, next, cs, aas, seq);
        let (next2, cs2, aas2, seq2, rem2) = place_step(service, p, vps, aa, rem, next, cs, aas, seq);
        if next2 >= service.vnfs@.len() {
        } else if p == 0 && start + t > n - 1 {
        } else {
            lemma_run_keeps_limits(service, start, n, vps, aa, rem2, next2, cs2, aas2, seq2, t + 1);
            lemma_limits_kept_trans(cs, rem, cs2, rem2,
                place_run(service, start, n, vps, aa, rem2, next2, cs2, aas2, seq2, t + 1).1,
                place_run(service, start, n, vps, aa, rem2, next2, cs2, aas2, seq2, t + 1).3);
        }
    }
}

proof fn lemma_ff_keeps_limits(
    intm: Seq<Option<Service>>,
    ft: FatTree,
    aa: Seq<bool>,
    rem: Seq<Option<usize>>,
    aa_only: bool,
    do_cnstr_handling: bool,
    cs: Seq<Option<VNF>>,
    aas: Seq<Option<usize>>,
    m: int,
)
    requires
        expansion_args(intm, ft, aa, rem),
        cs.len() == ft.spec_vms(),
        aas.len() == ft.spec_servers(),
        m <= ft.spec_vms(),
    ensures
        limits_kept(
            cs,
            rem,
            ff_run(intm, ft.spec_vms(), ft.vms_per_server as int, aa, rem, aa_only, do_cnstr_handling, cs, aas, m).1,
            ff_run(intm, ft.spec_vms(), ft.vms_per_server as int, aa, rem, aa_only, do_cnstr_handling, cs, aas, m).3,
        ),
    decreases m,
{
    let n = ft.spec_vms();
    let vps = ft.vms_per_server as int;
    if m > 0 {
        lemma_expansion_shape(ft);
        lemma_ff_keeps_limits(intm, ft, aa, rem, aa_only, do_cnstr_handling, cs, aas, m - 1);
        lemma_ff_lens_upto(intm, ft, aa, rem, aa_only, do_cnstr_handling, cs, aas, m - 1);
        let (seqs, cs1, aas1, rem1) = ff_run(intm, n, vps, aa, rem, aa_only, do_cnstr_handling, cs, aas, m - 1);
        match intm[m - 1] {
            None => {},
            Some(svc) => {
                if eligible(svc, aa, aa_only, do_cnstr_handling) {
                    assert(intm[m - 1] is Some);
                    assert forall|j: int| 0 <= j < svc.vnfs@.len() implies #[trigger] svc.vnfs@[j].id < rem1.len() by {
                        assert(intm[m - 1]->0.vnfs@[j].id < rem.len());
                    }
                    assert((m - 1) / vps <= m - 1) by (nonlinear_arith) requires vps > 0, m >= 1;
                    assert(0 <= (m - 1) / vps) by (nonlinear_arith) requires vps > 0, m >= 1;
                    lemma_run_keeps_limits(svc, (m - 1) / vps, n, vps, aa, rem1, 0, cs1, aas1, Seq::empty(), 0);
                    let r = place_run(svc, (m - 1) / vps, n, vps, aa, rem1, 0, cs1, aas1, Seq::empty(), 0);
                    lemma_limits_kept_trans(cs, rem, cs1, rem1, r.1, r.3);
                }
            },
        }
    }
}

/// Expanding an intermediate solution never places a VNF more often than its instance limit
/// allows.
pub proof fn lemma_expansion_respects_limits(
    intm: Seq<Option<Service>>,
    ft: FatTree,
    aa: Seq<bool>,
    rem: Seq<Option<usize>>,
    do_cnstr_handling: bool,
)
    requires
        expansion_args(intm, ft, aa, rem),
    ensures
        forall|id: usize|
            id < rem.len() && #[trigger] rem[id as int] is Some ==> count_instances(
                expand_spec(intm, ft, aa, rem, do_cnstr_handling).1,
                id,
                ft.spec_vms(),
            ) <= rem[id as int]->0,
{
    let n = ft.spec_vms();
    let vps = ft.vms_per_server as int;
    let cs0 = Seq::new(n as nat, |i: int| None::<VNF>);
    let aas0 = Seq::new(ft.spec_servers() as nat, |i: int| None::<usize>);
    ft.lemma_parts_bounded();
    let (s1, cs1, aas1, rem1) = first_feasible_spec(intm, n, vps, aa, rem, true, do_cnstr_handling, cs0, aas0);
    if !do_cnstr_handling {
        assert(limits_kept(cs0, rem, cs1, rem1));
    } else {
        lemma_ff_keeps_limits(intm, ft, aa, rem, true, do_cnstr_handling, cs0, aas0, n);
    }
    lemma_ff_lens(intm, ft, aa, rem, true, do_cnstr_handling, cs0, aas0);
    lemma_expansion_args_rem(intm, ft, aa, rem, rem1);
    let (s2, cs2, aas2, rem2) = first_feasible_spec(intm, n, vps, aa, rem1, false, do_cnstr_handling, cs1, aas1);
    lemma_ff_keeps_limits(intm, ft, aa, rem1, false, do_cnstr_handling, cs1, aas1, n);
    lemma_limits_kept_trans(cs0, rem, cs1, rem1, cs2, rem2);
    assert forall|id: usize| id < rem.len() && #[trigger] rem[id as int] is Some implies count_instances(
        cs2,
        id,
        n,
    ) <= rem[id as int]->0 by {
        lemma_count_empty(n, id, n);
        assert(rem2[id as int] is Some);
    }
}

/// The VNFs of every service in the intermediate solution carry that service's id.
pub open spec fn chains_consistent(intm: Seq<Option<Service>>, n: int) -> bool {
    forall|i: int, j: int|
        0 <= i < n && #[trigger] intm[i] is Some && 0 <= j < intm[i]->0.vnfs@.len() ==> #[trigger] intm[i]->0.vnfs@[j].service_id
            == intm[i]->0.id
}

/// How placements and server reservations agree during an expansion with constraint handling:
/// a VNF of an anti-affinity service has its server reserved for its service, a reserved server
/// hosts VNFs of that service only, only anti-affinity services reserve servers, and in the
/// first pass only anti-affinity services are placed.
spec fn reservations_agree(cs: Seq<Option<VNF>>, aas: Seq<Option<usize>>, aa: Seq<bool>, vps: int, aa_only: bool) -> bool {
    &&& forall|p: int|
        0 <= p < cs.len() && #[trigger] cs[p] is Some ==> {
            let v = cs[p]->0;
            &&& v.service_id < aa.len()
            &&& (aa[v.service_id as int] ==> aas[p / vps] == Some(v.service_id))
            &&& (aas[p / vps] is Some ==> aas[p / vps] == Some(v.service_id))
            &&& (aa_only ==> aa[v.service_id as int])
        }
    &&& forall|s: int| 0 <= s < aas.len() && #[trigger] aas[s] is Some ==> aas[s]->0 < aa.len() && aa[aas[s]->0 as int]
}

proof fn lemma_step_keeps_reservations(
    service: Service,
    p: int,
    vps: int,
    aa: Seq<bool>,
    rem: Seq<Option<usize>>,
    next: int,
    cs: Seq<Option<VNF>>,
    aas: Seq<Option<usize>>,
    seq: Seq<usize>,
    aa_only: bool,
)
    requires
        reservations_agree(cs, aas, aa, vps, aa_only),
        service.id < aa.len(),
        aa[service.id as int] == aa_only,
        forall|j: int| 0 <= j < service.vnfs@.len() ==> #[trigger] service.vnfs@[j].service_id == service.id,
        0 <= next < service.vnfs@.len(),
        0 <= p < cs.len(),
        vps > 0,
        forall|q: int| 0 <= q < cs.len() ==> #[trigger] (q / vps) < aas.len(),
    ensures
        reservations_agree(
            place_step(service, p, vps, aa, rem, next, cs, aas, seq).1,
            place_step(service, p, vps, aa, rem, next, cs, aas, seq).2,
            aa,
            vps,
            aa_only,
        ),
{
    let (next2, cs2, aas2, seq2, rem2) = place_step(service, p, vps, aa, rem, next, cs, aas, seq);
    if slot_open(service.id, cs, aas, p, vps) && instance_left(rem, service.vnfs@[next].id) {
        let v = service.vnfs@[next];
        let srv = p / vps;
        assert(v.service_id == service.id);
        assert(srv < aas.len());
        if aa_only {
            assert(aas2 == aas.update(srv, Some(service.id)));
            assert forall|q: int| 0 <= q < cs2.len() && #[trigger] cs2[q] is Some implies {
                let w = cs2[q]->0;
                &&& w.service_id < aa.len()
                &&& (aa[w.service_id as int] ==> aas2[q / vps] == Some(w.service_id))
                &&& (aas2[q / vps] is Some ==> aas2[q / vps] == Some(w.service_id))
                &&& (aa_only ==> aa[w.service_id as int])
            } by {
                if q != p {
                    assert(cs2[q] == cs[q]);
                    assert(q / vps < aas.len());
                    if q / vps == srv {
                        let w = cs[q]->0;
                        assert(aas[srv] == Some(w.service_id));
                    }
                }
            }
        } else {
            if aas[srv] is Some {
                assert(aa[aas[srv]->0 as int]);
            }
            assert(aas2 == aas);
            assert forall|q: int| 0 <= q < cs2.len() && #[trigger] cs2[q] is Some implies {
                let w = cs2[q]->0;
                &&& w.service_id < aa.len()
                &&& (aa[w.service_id as int] ==> aas2[q / vps] == Some(w.service_id))
                &&& (aas2[q / vps] is Some ==> aas2[q / vps] == Some(w.service_id))
                &&& (aa_only ==> aa[w.service_id as int])
            } by {
                if q != p {
                    assert(cs2[q] == cs[q]);
                }
            }
        }
    }
}

proof fn lemma_run_keeps_reservations(
    service: Service,
    start: int,
    n: int,
    vps: int,
    aa: Seq<bool>,
    rem: Seq<Option<usize>>,
    next: int,
    cs: Seq<Option<VNF>>,
    aas: Seq<Option<usize>>,
    seq: Seq<usize>,
    t: int,
    aa_only: bool,
)
    requires
        reservations_agree(cs, aas, aa, vps, aa_only),
        service.id < aa.len(),
        aa[service.id as int] == aa_only,
        forall|j: int| 0 <= j < service.vnfs@.len() ==> #[trigger] service.vnfs@[j].service_id == service.id,
        0 <= next < service.vnfs@.len(),
        0 <= start < n,
        cs.len() == n,
        vps > 0,
        forall|q: int| 0 <= q < n ==> #[trigger] (q / vps) < aas.len(),
    ensures
        reservations_agree(
            place_run(service, start, n, vps, aa, rem, next, cs, aas, seq, t).1,
            place_run(service, start, n, vps, aa, rem, next, cs, aas, seq, t).2,
            aa,
            vps,
            aa_only,
        ),
    decreases 2 * n - start - t,
{
    if t < 0 || t > 2 * (n - 1) - start {
    } else {
        let p = scan_pos(start, n, t);
        lemma_step_keeps_reservations(service, p, vps, aa, rem, next, cs, aas, seq, aa_only);
        let (next2, cs2, aas2, seq2, rem2) = place_step(service, p, vps, aa, rem, next, cs, aas, seq);
        if next2 >= service.vnfs@.len() {
        } else if p == 0 && start + t > n - 1 {
        } else {
            lemma_run_keeps_reservations(service, start, n, vps, aa, rem2, next2, cs2, aas2, seq2, t + 1, aa_only);
        }
    }
}

proof fn lemma_ff_keeps_reservations(
    intm: Seq<Option<Service>>,
    ft: FatTree,
    aa: Seq<bool>,
    rem: Seq<Option<usize>>,
    aa_only: bool,
    cs: Seq<Option<VNF>>,
    aas: Seq<Option<usize>>,
    m: int,
)
    requires
        expansion_args(intm, ft, aa, rem),
        chains_consistent(intm, ft.spec_vms()),
        reservations_agree(cs, aas, aa, ft.vms_per_server as int, aa_only),
        cs.len() == ft.spec_vms(),
        aas.len() == ft.spec_servers(),
        m <= ft.spec_vms(),
    ensures
        reservations_agree(
            ff_run(intm, ft.spec_vms(), ft.vms_per_server as int, aa, rem, aa_only, true, cs, aas, m).1,
            ff_run(intm, ft.spec_vms(), ft.vms_per_server as int, aa, rem, aa_only, true, cs, aas, m).2,
            aa,
            ft.vms_per_server as int,
            aa_only,
        ),
    decreases m,
{
    let n = ft.spec_vms();
    let vps = ft.vms_per_server as int;
    if m > 0 {
        lemma_expansion_shape(ft);
        lemma_ff_keeps_reservations(intm, ft, aa, rem, aa_only, cs, aas, m - 1);
        lemma_ff_lens_upto(intm, ft, aa, rem, aa_only, true, cs, aas, m - 1);
        let (seqs, cs1, aas1, rem1) = ff_run(intm, n, vps, aa, rem, aa_only, true, cs, aas, m - 1);
        match intm[m - 1] {
            None => {},
            Some(svc) => {
                if eligible(svc, aa, aa_only, true) {
                    assert(intm[m - 1] is Some);
                    assert forall|j: int| 0 <= j < svc.vnfs@.len() implies #[trigger] svc.vnfs@[j].service_id == svc.id by {
                        assert(intm[m - 1]->0.vnfs@[j].service_id == intm[m - 1]->0.id);
                    }
                    assert((m - 1) / vps <= m - 1) by (nonlinear_arith) requires vps > 0, m >= 1;
                    assert(0 <= (m - 1) / vps) by (nonlinear_arith) requires vps > 0, m >= 1;
                    lemma_run_keeps_reservations(svc, (m - 1) / vps, n, vps, aa, rem1, 0, cs1, aas1, Seq::empty(), 0,
                        aa_only);
                }
            },
        }
    }
}

proof fn lemma_first_aa_witness(solution: Seq<Option<VNF>>, aa: Seq<bool>, base: int, k: int)
    requires
        first_aa(solution, aa, base, k) is Some,
    ensures
        exists|v: int|
            0 <= v < k && #[trigger] solution[base + v] is Some && aa[solution[base + v]->0.service_id as int]
                && solution[base + v]->0.service_id == first_aa(solution, aa, base, k)->0,
    decreases k,
{
    if k > 0 {
        if first_aa(solution, aa, base, k - 1) is Some {
            lemma_first_aa_witness(solution, aa, base, k - 1);
            let v = choose|v: int|
                0 <= v < k - 1 && #[trigger] solution[base + v] is Some && aa[solution[base + v]->0.service_id as int]
                    && solution[base + v]->0.service_id == first_aa(solution, aa, base, k - 1)->0;
            assert(solution[base + v] is Some);
        } else {
            assert(solution[base + k - 1] is Some);
        }
    }
}

/// With constraint handling, expanding an intermediate solution respects anti-affinity: on every
/// server that hosts a VNF of an anti-affinity service, all VNFs belong to that service.
pub proof fn lemma_expansion_respects_anti_affinity(
    intm: Seq<Option<Service>>,
    ft: FatTree,
    aa: Seq<bool>,
    rem: Seq<Option<usize>>,
)
    requires
        expansion_args(intm, ft, aa, rem),
        chains_consistent(intm, ft.spec_vms()),
    ensures
        forall|s: int|
            0 <= s < ft.spec_servers() ==> #[trigger] server_ok(
                expand_spec(intm, ft, aa, rem, true).1,
                aa,
                s,
                ft.vms_per_server as int,
            ),
{
    let n = ft.spec_vms();
    let vps = ft.vms_per_server as int;
    let cs0 = Seq::new(n as nat, |i: int| None::<VNF>);
    let aas0 = Seq::new(ft.spec_servers() as nat, |i: int| None::<usize>);
    ft.lemma_parts_bounded();
    if n == 0 {
        assert forall|s: int| 0 <= s < ft.spec_servers() implies #[trigger] server_ok(
            expand_spec(intm, ft, aa, rem, true).1,
            aa,
            s,
            vps,
        ) by {
            assert(vps == 0) by (nonlinear_arith)
                requires n == ft.spec_servers() * vps, 0 <= s < ft.spec_servers(), vps >= 0, n == 0;
            assert(first_aa(expand_spec(intm, ft, aa, rem, true).1, aa, s * vps, vps) is None);
        }
        return;
    }
    lemma_expansion_shape(ft);
    assert(reservations_agree(cs0, aas0, aa, vps, true));
    lemma_ff_keeps_reservations(intm, ft, aa, rem, true, cs0, aas0, n);
    lemma_ff_lens_upto(intm, ft, aa, rem, true, true, cs0, aas0, n);
    let (s1, cs1, aas1, rem1) = first_feasible_spec(intm, n, vps, aa, rem, true, true, cs0, aas0);
    assert(reservations_agree(cs1, aas1, aa, vps, false));
    lemma_expansion_args_rem(intm, ft, aa, rem, rem1);
    lemma_ff_keeps_reservations(intm, ft, aa, rem1, false, cs1, aas1, n);
    lemma_ff_lens_upto(intm, ft, aa, rem1, false, true, cs1, aas1, n);
    let (s2, cs2, aas2, rem2) = first_feasible_spec(intm, n, vps, aa, rem1, false, true, cs1, aas1);
    assert(cs2 == expand_spec(intm, ft, aa, rem, true).1);
    assert forall|s: int| 0 <= s < ft.spec_servers() implies #[trigger] server_ok(cs2, aa, s, vps) by {
        match first_aa(cs2, aa, s * vps, vps) {
            None => {},
            Some(x) => {
                lemma_first_aa_witness(cs2, aa, s * vps, vps);
                let v = choose|v: int|
                    0 <= v < vps && #[trigger] cs2[s * vps + v] is Some && aa[cs2[s * vps + v]->0.service_id as int]
                        && cs2[s * vps + v]->0.service_id == x;
                assert forall|u: int| 0 <= u < vps && #[trigger] cs2[s * vps + u] is Some implies cs2[s * vps
                    + u]->0.service_id == x by {
                    assert(0 <= s * vps + u < n) by (nonlinear_arith)
                        requires 0 <= s < ft.spec_servers(), 0 <= u < vps, n == ft.spec_servers() * vps;
                    assert(0 <= s * vps + v < n) by (nonlinear_arith)
                        requires 0 <= s < ft.spec_servers(), 0 <= v < vps, n == ft.spec_servers() * vps;
                    vstd::arithmetic::div_mod::lemma_fundamental_div_mod_converse(s * vps + u, vps, s, u);
                    vstd::arithmetic::div_mod::lemma_fundamental_div_mod_converse(s * vps + v, vps, s, v);
                    assert(aas2[s] == Some(x));
                }
            },
        }
    }
}

/// A census of the first `m` slots of an intermediate solution: the free slots in order, the
/// occupied slots in order with their service and how many slots up to there hold that service,
/// and the number of slots holding each service.
pub open spec fn census(intm: Seq<Option<ServiceView>>, num_services: nat, m: int) -> (
    Seq<usize>,
    Seq<(usize, usize, usize)>,
    Seq<usize>,
)
    decreases m,
{
    if m <= 0 {
        (Seq::empty(), Seq::empty(), Seq::new(num_services, |i: int| 0usize))
    } else {
        let (free, placed, count) = census(intm, num_services, m - 1);
        match intm[m - 1] {
            None => (free.push((m - 1) as usize), placed, count),
            Some(sv) => (
                free,
                placed.push(((m - 1) as usize, sv.id, (count[sv.id as int] + 1) as usize)),
                count.update(sv.id as int, (count[sv.id as int] + 1) as usize),
            ),
        }
    }
}

proof fn lemma_census_bounds(intm: Seq<Option<ServiceView>>, num_services: nat, m: int)
    requires
        0 <= m <= intm.len(),
        forall|i: int| 0 <= i < intm.len() && #[trigger] intm[i] is Some ==> intm[i]->0.id < num_services,
    ensures
        census(intm, num_services, m).2.len() == num_services,
        forall|s: int| 0 <= s < num_services ==> #[trigger] census(intm, num_services, m).2[s] <= m,
    decreases m,
{
    if m > 0 {
        lemma_census_bounds(intm, num_services, m - 1);
    }
}

/// The first pass of balancing: which slots are free, which hold which service (and how many
/// slots up to there hold the same service), and how many slots hold each service.
pub fn balance_census(intermediate_solution: &Vec<Option<Service>>, services: &Vec<Service>) -> (res: (
    Vec<usize>,
    Vec<(usize, usize, usize)>,
    Vec<usize>,
))
    requires
        forall|i: int|
            0 <= i < intermediate_solution@.len() && #[trigger] intermediate_solution@[i] is Some
                ==> intermediate_solution@[i]->0.id < services@.len(),
    ensures
        res.0@ == census(slots_view(intermediate_solution@), services@.len(), intermediate_solution@.len() as int).0,
        res.1@ == census(slots_view(intermediate_solution@), services@.len(), intermediate_solution@.len() as int).1,
        res.2@ == census(slots_view(intermediate_solution@), services@.len(), intermediate_solution@.len() as int).2,
{
    let ghost iv = slots_view(intermediate_solution@);
    let mut free_spaces: Vec<usize> = Vec::new();
    let mut placed: Vec<(usize, usize, usize)> = Vec::new();
    let mut count: Vec<usize> = Vec::new();
    let mut t: usize = 0;
    while t < services.len()
        invariant
            t <= services@.len(),
            count@ =~= Seq::new(t as nat, |i: int| 0usize),
        decreases services@.len() - t,
    {
        count.push(0);
        t += 1;
    }
    proof {
        assert forall|i: int| 0 <= i < iv.len() && #[trigger] iv[i] is Some implies iv[i]->0.id < services@.len() by {
            assert(intermediate_solution@[i] is Some);
        }
    }
    let mut i: usize = 0;
    while i < intermediate_solution.len()
        invariant
            iv == slots_view(intermediate_solution@),
            iv.len() == intermediate_solution@.len(),
            i <= iv.len(),
            forall|i: int| 0 <= i < iv.len() && #[trigger] iv[i] is Some ==> iv[i]->0.id < services@.len(),
            forall|i: int|
                0 <= i < intermediate_solution@.len() && #[trigger] intermediate_solution@[i] is Some
                    ==> intermediate_solution@[i]->0.id < services@.len(),
            free_spaces@ == census(iv, services@.len(), i as int).0,
            placed@ == census(iv, services@.len(), i as int).1,
            count@ == census(iv, services@.len(), i as int).2,
        decreases iv.len() - i,
    {
        proof {
            lemma_census_bounds(iv, services@.len(), i as int);
        }
        match &intermediate_solution[i] {
            None => {
                free_spaces.push(i);
            },
            Some(service) => {
                let service_id = service.id;
                proof {
                    assert(intermediate_solution@[i as int] is Some);
                }
                let c = count[service_id] + 1;
                count.set(service_id, c);
                placed.push((i, service_id, c));
            },
        }
        i += 1;
    }
    (free_spaces, placed, count)
}

/// The number of VMs a service takes: its chain length, rounded up to whole servers for an
/// anti-affinity service.
pub open spec fn footprint(len: int, vps: int, aa: bool) -> int {
    if aa {
        if vps == 0 {
            0
        } else {
            (len / vps + (if len % vps == 0 { 0int } else { 1int })) * vps
        }
    } else {
        len
    }
}

/// The number of VMs each service takes.
pub open spec fn footprints(services: Seq<Service>, aa: Seq<bool>, vps: int) -> Seq<int> {
    Seq::new(services.len(), |i: int| footprint(services[i].vnfs@.len() as int, vps, aa[i]))
}

/// VMs taken by the services of the first `m` ids, each as often as it is placed.
pub open spec fn used_upto(lengths: Seq<int>, count: Seq<usize>, m: int) -> int
    decreases m,
{
    if m <= 0 {
        0
    } else {
        used_upto(lengths, count, m - 1) + lengths[m - 1] * count[m - 1]
    }
}

/// The ids among the first `m` that are not placed at all, in increasing order.
pub open spec fn missing_upto(count: Seq<usize>, m: int) -> Seq<usize>
    decreases m,
{
    if m <= 0 {
        Seq::empty()
    } else if count[m - 1] == 0 {
        missing_upto(count, m - 1).push((m - 1) as usize)
    } else {
        missing_upto(count, m - 1)
    }
}

/// The total of the first `m` lengths.
pub open spec fn sum_lengths(lengths: Seq<int>, m: int) -> int
    decreases m,
{
    if m <= 0 {
        0
    } else {
        sum_lengths(lengths, m - 1) + lengths[m - 1]
    }
}

/// Missing services go into free slots, the last missing into the last free slot, while both last.
pub open spec fn fill_missing(
    intm: Seq<Option<ServiceView>>,
    services: Seq<ServiceView>,
    lengths: Seq<int>,
    missing: Seq<usize>,
    free: Seq<usize>,
    used: int,
) -> (Seq<Option<ServiceView>>, Seq<usize>, int)
    decreases missing.len(),
{
    if missing.len() > 0 && free.len() > 0 {
        let s = missing.last();
        let pos = free.last();
        fill_missing(
            intm.update(pos as int, Some(services[s as int])),
            services,
            lengths,
            missing.drop_last(),
            free.drop_last(),
            used + lengths[s as int],
        )
    } else {
        (intm, missing, used)
    }
}

/// While a service is missing or the services take more VMs than there are, the occupied slot
/// ranked last gives way (to a missing service, if any), unless its removal is ranked infinite.
pub open spec fn trim(
    intm: Seq<Option<ServiceView>>,
    services: Seq<ServiceView>,
    lengths: Seq<int>,
    missing: Seq<usize>,
    ranked: Seq<(usize, usize, bool)>,
    used: int,
    num_vms: int,
) -> Seq<Option<ServiceView>>
    decreases ranked.len(),
{
    if missing.len() > 0 || used > num_vms {
        if ranked.len() == 0 {
            intm
        } else {
            let (pos, sp, infinite) = ranked.last();
            if infinite {
                intm
            } else if missing.len() > 0 {
                let sm = missing.last();
                trim(
                    intm.update(pos as int, Some(services[sm as int])),
                    services,
                    lengths,
                    missing.drop_last(),
                    ranked.drop_last(),
                    used - lengths[sp as int] + lengths[sm as int],
                    num_vms,
                )
            } else {
                trim(
                    intm.update(pos as int, None),
                    services,
                    lengths,
                    missing,
                    ranked.drop_last(),
                    used - lengths[sp as int],
                    num_vms,
                )
            }
        }
    } else {
        intm
    }
}

/// The lengths of the removal candidates still to come.
pub open spec fn ranked_lengths(lengths: Seq<int>, ranked: Seq<(usize, usize, bool)>) -> int
    decreases ranked.len(),
{
    if ranked.len() == 0 {
        0
    } else {
        ranked_lengths(lengths, ranked.drop_last()) + lengths[ranked.last().1 as int]
    }
}

/// The balanced intermediate solution.
pub open spec fn balance_spec(
    intm: Seq<Option<ServiceView>>,
    services: Seq<Service>,
    aa: Seq<bool>,
    vps: int,
    num_vms: int,
    free: Seq<usize>,
    count: Seq<usize>,
    ranked: Seq<(usize, usize, bool)>,
) -> Seq<Option<ServiceView>> {
    let lengths = footprints(services, aa, vps);
    let sv = services.map_values(|s: Service| s@);
    let (intm1, missing1, used1) = fill_missing(
        intm,
        sv,
        lengths,
        missing_upto(count, services.len() as int),
        free,
        used_upto(lengths, count, services.len() as int),
    );
    trim(intm1, sv, lengths, missing1, ranked, used1, num_vms)
}

/// What balancing needs: the census of the solution, the occupied slots ranked by how little they
/// contribute (each with whether its removal counts as infinite), and sizes that fit in a word.
pub open spec fn balance_args(
    intm: Seq<Option<Service>>,
    services: Seq<Service>,
    aa: Seq<bool>,
    vps: int,
    free: Seq<usize>,
    count: Seq<usize>,
    ranked: Seq<(usize, usize, bool)>,
) -> bool {
    let lengths = footprints(services, aa, vps);
    &&& aa.len() >= services.len()
    &&& count.len() == services.len()
    &&& forall|j: int| 0 <= j < free.len() ==> #[trigger] free[j] < intm.len()
    &&& forall|j: int| 0 <= j < ranked.len() ==> #[trigger] ranked[j].0 < intm.len() && ranked[j].1 < services.len()
    &&& ranked_lengths(lengths, ranked) <= used_upto(lengths, count, services.len() as int)
    &&& used_upto(lengths, count, services.len() as int) + sum_lengths(lengths, services.len() as int) <= usize::MAX
}

/// Total footprint of the listed services.
pub open spec fn listed_lengths(lengths: Seq<int>, ids: Seq<usize>) -> int
    decreases ids.len(),
{
    if ids.len() == 0 {
        0
    } else {
        listed_lengths(lengths, ids.drop_last()) + lengths[ids.last() as int]
    }
}

proof fn lemma_missing_lengths(lengths: Seq<int>, count: Seq<usize>, m: int)
    requires
        0 <= m <= count.len(),
        count.len() <= usize::MAX,
        count.len() == lengths.len(),
        forall|i: int| 0 <= i < lengths.len() ==> #[trigger] lengths[i] >= 0,
    ensures
        0 <= listed_lengths(lengths, missing_upto(count, m)) <= sum_lengths(lengths, m),
        forall|j: int| 0 <= j < missing_upto(count, m).len() ==> #[trigger] missing_upto(count, m)[j] < m,
    decreases m,
{
    if m > 0 {
        lemma_missing_lengths(lengths, count, m - 1);
        assert(lengths[m - 1] >= 0);
        if count[m - 1] == 0 {
            assert(missing_upto(count, m).drop_last() =~= missing_upto(count, m - 1));
            assert(missing_upto(count, m).last() == (m - 1) as usize);
            let mm = missing_upto(count, m);
            assert(listed_lengths(lengths, mm) == listed_lengths(lengths, mm.drop_last()) + lengths[mm.last() as int]);
        } else {
            assert(missing_upto(count, m) == missing_upto(count, m - 1));
        }
        assert(sum_lengths(lengths, m) == sum_lengths(lengths, m - 1) + lengths[m - 1]);
    }
}

proof fn lemma_used_monotone(lengths: Seq<int>, count: Seq<usize>, m: int, k: int)
    requires
        0 <= k <= m <= count.len(),
        count.len() == lengths.len(),
        forall|i: int| 0 <= i < lengths.len() ==> #[trigger] lengths[i] >= 0,
    ensures
        0 <= used_upto(lengths, count, k) <= used_upto(lengths, count, m),
    decreases m,
{
    if m > 0 {
        assert(lengths[m - 1] * count[m - 1] >= 0) by (nonlinear_arith) requires lengths[m - 1] >= 0;
        if k < m {
            lemma_used_monotone(lengths, count, m - 1, k);
        } else {
            lemma_used_monotone(lengths, count, m - 1, k - 1);
        }
    }
}

proof fn lemma_sum_lengths_parts(lengths: Seq<int>, m: int, k: int)
    requires
        0 <= k < m <= lengths.len(),
        forall|i: int| 0 <= i < lengths.len() ==> #[trigger] lengths[i] >= 0,
    ensures
        0 <= lengths[k] <= sum_lengths(lengths, m),
        0 <= sum_lengths(lengths, m),
    decreases m,
{
    assert(lengths[m - 1] >= 0);
    assert(lengths[k] >= 0);
    assert(sum_lengths(lengths, m) == sum_lengths(lengths, m - 1) + lengths[m - 1]);
    assert(sum_lengths(lengths, 0) == 0);
    if k < m - 1 {
        lemma_sum_lengths_parts(lengths, m - 1, k);
    } else if m > 1 {
        lemma_sum_lengths_parts(lengths, m - 1, 0);
    }
}

proof fn lemma_slots_update(s: Seq<Option<Service>>, i: int, x: Option<Service>)
    requires
        0 <= i < s.len(),
    ensures
        slots_view(s.update(i, x)) == slots_view(s).update(i, match x {
            Some(y) => Some(y@),
            None => None,
        }),
{
    assert(slots_view(s.update(i, x)) =~= slots_view(s).update(i, match x {
        Some(y) => Some(y@),
        None => None,
    }));
}

/// The second pass of balancing: missing services go into free slots; then, while a service is
/// still missing or the services need more VMs than the data centre has, the occupied slot that
/// `ranked` puts last is emptied (or given to a missing service), until a slot whose removal is
/// ranked infinite comes up or the ranking runs out.
pub fn balance_apply(
    intermediate_solution: &mut Vec<Option<Service>>,
    ft: &FatTree,
    services: &Vec<Service>,
    aa_constraints: &Vec<bool>,
    free_spaces: &Vec<usize>,
    count: &Vec<usize>,
    ranked: &Vec<(usize, usize, bool)>,
)
    requires
        ft.fits(),
        balance_args(old(intermediate_solution)@, services@, aa_constraints@, ft.vms_per_server as int, free_spaces@,
            count@, ranked@),
    ensures
        slots_view(final(intermediate_solution)@) == balance_spec(slots_view(old(intermediate_solution)@),
            services@, aa_constraints@, ft.vms_per_server as int, ft.spec_vms(), free_spaces@, count@, ranked@),
{
    let ghost vps = ft.vms_per_server as int;
    let ghost lens = footprints(services@, aa_constraints@, vps);
    let ghost ns = services@.len() as int;
    let ghost sv = services@.map_values(|s: Service| s@);
    let vms_per_server = ft.vms_per_server;
    let num_vms = ft.num_vms();
    proof {
        assert forall|i: int| 0 <= i < lens.len() implies #[trigger] lens[i] >= 0 by {
            let len = services@[i].vnfs@.len() as int;
            if aa_constraints@[i] && vps > 0 {
                assert((len / vps + (if len % vps == 0 { 0int } else { 1int })) * vps >= 0) by (nonlinear_arith)
                    requires len >= 0, vps > 0;
            }
        }
        lemma_used_monotone(lens, count@, ns, ns);
        if ns > 0 {
            lemma_sum_lengths_parts(lens, ns, 0);
        }
    }
    let mut lengths: Vec<usize> = Vec::new();
    let mut missing: Vec<usize> = Vec::new();
    let mut used: usize = 0;
    let mut i: usize = 0;
    while i < services.len()
        invariant
            i <= ns,
            ns == services@.len(),
            ns == count@.len(),
            aa_constraints@.len() >= ns,
            vps == vms_per_server,
            lens == footprints(services@, aa_constraints@, vps),
            lens.len() == ns,
            forall|j: int| 0 <= j < lens.len() ==> #[trigger] lens[j] >= 0,
            used_upto(lens, count@, ns) + sum_lengths(lens, ns) <= usize::MAX,
            lengths@.len() == i,
            forall|j: int| 0 <= j < i ==> lengths@[j] == lens[j],
            missing@ == missing_upto(count@, i as int),
            used == used_upto(lens, count@, i as int),
        decreases ns - i,
    {
        if count[i] == 0 {
            missing.push(i);
        }
        let service_length = services[i].vnfs.len();
        proof {
            assert(lens[i as int] == footprint(service_length as int, vps, aa_constraints@[i as int]));
            lemma_sum_lengths_parts(lens, ns, i as int);
            lemma_used_monotone(lens, count@, ns, i as int + 1);
        }
        let l = if aa_constraints[i] {
            if vms_per_server == 0 {
                0
            } else {
                let whole = service_length / vms_per_server;
                let part: usize = if service_length % vms_per_server == 0 { 0 } else { 1 };
                proof {
                    let w = whole as int;
                    let pt = part as int;
                    let vv = vms_per_server as int;
                    assert((w + pt) * vv == lens[i as int]);
                    assert(w + pt <= (w + pt) * vv) by (nonlinear_arith) requires w >= 0, pt >= 0, vv >= 1;
                    assert(lens[i as int] <= sum_lengths(lens, ns));
                    assert(used_upto(lens, count@, ns) >= 0);
                }
                let rounded = whole + part;
                proof {
                    assert(rounded * vms_per_server == lens[i as int]);
                    assert(lens[i as int] <= sum_lengths(lens, ns));
                    assert(used_upto(lens, count@, ns) >= 0);
                }
                rounded * vms_per_server
            }
        } else {
            service_length
        };
        lengths.push(l);
        proof {
            assert(lens[i as int] * count@[i as int] == l * count@[i as int]);
            assert(used_upto(lens, count@, i as int + 1) == used + l * count@[i as int]);
            assert(l * count@[i as int] >= 0) by (nonlinear_arith) requires l >= 0, count@[i as int] >= 0;
        }
        used = used + l * count[i];
        i += 1;
    }
    let ghost iv0 = slots_view(intermediate_solution@);
    let ghost used0 = used as int;
    let ghost missing0 = missing@;
    let ghost ilen = intermediate_solution@.len();
    proof {
        assert(count@.len() == count.len());
        lemma_missing_lengths(lens, count@, ns);
        assert(missing@.subrange(0, missing@.len() as int) =~= missing@);
        assert(free_spaces@.subrange(0, free_spaces@.len() as int) =~= free_spaces@);
    }
    // Missing services go into free spaces
    let mut mi = missing.len();
    let mut fi = free_spaces.len();
    while mi > 0 && fi > 0
        invariant
            mi <= missing@.len(),
            fi <= free_spaces@.len(),
            missing@ == missing0,
            lengths@.len() == ns,
            lens.len() == ns,
            intermediate_solution@.len() == ilen,
            forall|j: int| 0 <= j < ns ==> lengths@[j] == lens[j],
            forall|j: int| 0 <= j < missing0.len() ==> #[trigger] missing0[j] < ns,
            forall|j: int| 0 <= j < free_spaces@.len() ==> #[trigger] free_spaces@[j] < ilen,
            ns == services@.len(),
            sv == services@.map_values(|s: Service| s@),
            forall|j: int| 0 <= j < lens.len() ==> #[trigger] lens[j] >= 0,
            used + listed_lengths(lens, missing@.subrange(0, mi as int)) == used0 + listed_lengths(lens, missing0),
            used0 + listed_lengths(lens, missing0) <= usize::MAX,
            used >= used0,
            fill_missing(slots_view(intermediate_solution@), sv, lens, missing@.subrange(0, mi as int),
                free_spaces@.subrange(0, fi as int), used as int) == fill_missing(iv0, sv, lens, missing0,
                free_spaces@, used0),
        decreases mi,
    {
        let s_id = missing[mi - 1];
        let pos = free_spaces[fi - 1];
        let ghost ms = missing@.subrange(0, mi as int);
        let ghost fs = free_spaces@.subrange(0, fi as int);
        proof {
            assert(ms.drop_last() =~= missing@.subrange(0, mi - 1));
            assert(fs.drop_last() =~= free_spaces@.subrange(0, fi - 1));
            assert forall|j: int| 0 <= j < ms.drop_last().len() implies #[trigger] ms.drop_last()[j] < lens.len() by {
                assert(ms.drop_last()[j] == missing0[j]);
            }
            assert(ms.last() == s_id);
            assert(listed_lengths(lens, ms) >= lens[s_id as int]) by {
                lemma_listed_nonneg(lens, ms.drop_last());
            }
            lemma_slots_update(intermediate_solution@, pos as int, Some(services@[s_id as int]));
        }
        let svc = services[s_id].clone();
        proof {
            lemma_slots_update(intermediate_solution@, pos as int, Some(svc));
        }
        intermediate_solution.set(pos, Some(svc));
        used = used + lengths[s_id];
        mi = mi - 1;
        fi = fi - 1;
    }
    let ghost used1 = used as int;
    let ghost iv1 = slots_view(intermediate_solution@);
    let ghost mi1 = mi as int;
    let ghost bal = balance_spec(iv0, services@, aa_constraints@, vps, num_vms as int, free_spaces@, count@, ranked@);
    proof {
        assert(fill_missing(iv1, sv, lens, missing@.subrange(0, mi as int), free_spaces@.subrange(0, fi as int),
            used as int) == (iv1, missing@.subrange(0, mi as int), used as int));
        assert(bal == trim(iv1, sv, lens, missing0.subrange(0, mi1), ranked@, used1, num_vms as int));
        assert(ranked@.subrange(0, ranked@.len() as int) =~= ranked@);
        assert(ranked_lengths(lens, ranked@) <= used);
    }
    // Remove the least useful services while needed
    let mut ri = ranked.len();
    while mi > 0 || used > num_vms
        invariant
            mi <= missing@.len(),
            ri <= ranked@.len(),
            missing@ == missing0,
            lengths@.len() == ns,
            lens.len() == ns,
            0 <= mi1 <= missing0.len(),
            bal == trim(iv1, sv, lens, missing0.subrange(0, mi1), ranked@, used1, num_vms as int),
            bal == balance_spec(slots_view(old(intermediate_solution)@), services@, aa_constraints@,
                ft.vms_per_server as int, ft.spec_vms(), free_spaces@, count@, ranked@),
            forall|j: int| 0 <= j < ns ==> lengths@[j] == lens[j],
            forall|j: int| 0 <= j < missing0.len() ==> #[trigger] missing0[j] < ns,
            forall|j: int| 0 <= j < ranked@.len() ==> #[trigger] ranked@[j].0 < intermediate_solution@.len()
                && ranked@[j].1 < ns,
            ns == services@.len(),
            sv == services@.map_values(|s: Service| s@),
            num_vms == ft.spec_vms(),
            forall|j: int| 0 <= j < lens.len() ==> #[trigger] lens[j] >= 0,
            used + listed_lengths(lens, missing@.subrange(0, mi as int)) <= usize::MAX,
            ranked_lengths(lens, ranked@.subrange(0, ri as int)) <= used,
            trim(slots_view(intermediate_solution@), sv, lens, missing@.subrange(0, mi as int),
                ranked@.subrange(0, ri as int), used as int, num_vms as int) == trim(iv1, sv, lens,
                missing0.subrange(0, mi1), ranked@, used1, num_vms as int),
        decreases ri,
    {
        let ghost rs = ranked@.subrange(0, ri as int);
        let ghost ms = missing@.subrange(0, mi as int);
        let ghost cur0 = slots_view(intermediate_solution@);
        let ghost used_before = used as int;
        if ri == 0 {
            assert(trim(slots_view(intermediate_solution@), sv, lens, ms, rs, used as int, num_vms as int)
                == slots_view(intermediate_solution@));
            return;  // Unable to balance solution
        }
        let (pos, s_p, infinite) = ranked[ri - 1];
        ri = ri - 1;
        if infinite {
            assert(rs.last() == (pos, s_p, infinite));
            assert(trim(slots_view(intermediate_solution@), sv, lens, ms, rs, used as int, num_vms as int)
                == slots_view(intermediate_solution@));
            return;  // Unable to balance solution
        }
        proof {
            assert(rs.drop_last() =~= ranked@.subrange(0, ri as int));
            assert(rs.last() == (pos, s_p, infinite));
            assert(ranked_lengths(lens, ranked@.subrange(0, ri as int)) >= 0) by {
                assert forall|j: int| 0 <= j < ri implies #[trigger] ranked@.subrange(0, ri as int)[j].1 < lens.len() by {
                    assert(ranked@.subrange(0, ri as int)[j] == ranked@[j]);
                    assert(ranked@[j].0 < intermediate_solution@.len());
                }
                lemma_ranked_nonneg(lens, ranked@.subrange(0, ri as int));
            }
            lemma_slots_update(intermediate_solution@, pos as int, None);
        }
        intermediate_solution.set(pos, None);
        used = used - lengths[s_p];
        if mi > 0 {
            let s_m = missing[mi - 1];
            proof {
                assert(ms.drop_last() =~= missing@.subrange(0, mi - 1));
                assert(ms.last() == s_m);
                assert forall|j: int| 0 <= j < ms.drop_last().len() implies #[trigger] ms.drop_last()[j] < lens.len() by {
                    assert(ms.drop_last()[j] == missing0[j]);
                }
                lemma_listed_nonneg(lens, ms.drop_last());
            }
            mi = mi - 1;
            let svc = services[s_m].clone();
            proof {
                lemma_slots_update(intermediate_solution@, pos as int, Some(svc));
                assert(slots_view(intermediate_solution@).update(pos as int, Some(svc@)) =~= slots_view(
                    intermediate_solution@,
                ).update(pos as int, None).update(pos as int, Some(sv[s_m as int])));
            }
            intermediate_solution.set(pos, Some(svc));
            used = used + lengths[s_m];
            proof {
                assert(trim(cur0, sv, lens, ms, rs, used_before, num_vms as int) == trim(cur0.update(pos as int,
                    Some(sv[s_m as int])), sv, lens, ms.drop_last(), rs.drop_last(), used_before - lens[s_p as int]
                    + lens[s_m as int], num_vms as int));
                assert(svc@ == sv[s_m as int]);
                assert(slots_view(intermediate_solution@) == cur0.update(pos as int, Some(sv[s_m as int])));
                assert(used == used_before - lens[s_p as int] + lens[s_m as int]);
                assert(ms.drop_last() == missing@.subrange(0, mi as int));
                assert(rs.drop_last() == ranked@.subrange(0, ri as int));
            }
        } else {
            proof {
                assert(ms.len() == 0);
                assert(trim(cur0, sv, lens, ms, rs, used_before, num_vms as int) == trim(cur0.update(pos as int,
                    None), sv, lens, ms, rs.drop_last(), used_before - lens[s_p as int], num_vms as int));
                assert(ms =~= missing@.subrange(0, mi as int));
            }
        }
    }
    proof {
        let ms = missing@.subrange(0, mi as int);
        assert(trim(slots_view(intermediate_solution@), sv, lens, ms, ranked@.subrange(0, ri as int), used as int,
            num_vms as int) == slots_view(intermediate_solution@));
    }
}

proof fn lemma_listed_nonneg(lengths: Seq<int>, ids: Seq<usize>)
    requires
        forall|j: int| 0 <= j < lengths.len() ==> #[trigger] lengths[j] >= 0,
        forall|j: int| 0 <= j < ids.len() ==> #[trigger] ids[j] < lengths.len(),
    ensures
        listed_lengths(lengths, ids) >= 0,
    decreases ids.len(),
{
    if ids.len() > 0 {
        lemma_listed_nonneg(lengths, ids.drop_last());
    }
}

proof fn lemma_ranked_nonneg(lengths: Seq<int>, ranked: Seq<(usize, usize, bool)>)
    requires
        forall|j: int| 0 <= j < lengths.len() ==> #[trigger] lengths[j] >= 0,
        forall|j: int| 0 <= j < ranked.len() ==> #[trigger] ranked[j].1 < lengths.len(),
    ensures
        ranked_lengths(lengths, ranked) >= 0,
    decreases ranked.len(),
{
    if ranked.len() > 0 {
        lemma_ranked_nonneg(lengths, ranked.drop_last());
    }
}

} // verus!
