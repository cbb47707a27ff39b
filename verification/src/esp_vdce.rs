use vstd::prelude::*;
use std::collections::HashSet;
use crate::fat_tree::FatTree;
use crate::instances::{in_some_service, queue_from, shuffled_queue};
use crate::operators::Solution;
use crate::service::{Service, VNF};

verus! {

broadcast use vstd::std_specs::hash::group_hash_axioms;

/// Removes from `original_set` every element of `subtraction_set`.
pub fn set_subtract(original_set: &mut HashSet<usize>, subtraction_set: &HashSet<usize>)
    ensures
        final(original_set)@ == old(original_set)@.difference(subtraction_set@),
{
    let ghost orig = original_set@;
    let ghost mut seen: Seq<usize> = Seq::empty();
    for item in it: subtraction_set.iter()
        invariant
            it.seq().unref().to_set() == subtraction_set@,
            seen == it.seq().unref().take(it.index() as int),
            it.index() == it.seq().len() ==> seen =~= it.seq().unref(),
            original_set@ == orig.difference(seen.to_set()),
        ensures
            original_set@ == orig.difference(subtraction_set@),
    {
        original_set.remove(item);
        proof {
            assert(it.seq().unref().take(it.index() as int + 1) =~= seen.push(*item));
            seen.lemma_push_to_set_commute(*item);
            seen = seen.push(*item);
        }
    }
}

} // verus!

verus! {

/// The VNFs hosted by each server.
pub open spec fn hosted(servers: Seq<Vec<VNF>>) -> Seq<Seq<VNF>> {
    servers.map_values(|v: Vec<VNF>| v@)
}

/// The servers already used by each service.
pub open spec fn used_view(used: Seq<HashSet<usize>>) -> Seq<Set<usize>> {
    used.map_values(|h: HashSet<usize>| h@)
}

/// The server has a VM free.
pub open spec fn has_room(servers: Seq<Seq<VNF>>, s: usize, vms_per_server: int) -> bool {
    servers[s as int].len() < vms_per_server
}

/// `s` is the fullest candidate that still has a VM free, the lowest-numbered one among equally
/// full ones.
pub open spec fn is_best(cands: Set<usize>, servers: Seq<Seq<VNF>>, vms_per_server: int, s: usize) -> bool {
    &&& cands.contains(s)
    &&& has_room(servers, s, vms_per_server)
    &&& forall|t: usize|
        #[trigger] cands.contains(t) && has_room(servers, t, vms_per_server) ==> servers[s as int].len()
            > servers[t as int].len() || (servers[s as int].len() == servers[t as int].len() && s <= t)
}

/// The best candidate, if any candidate has a VM free.
pub open spec fn best(cands: Set<usize>, servers: Seq<Seq<VNF>>, vms_per_server: int) -> Option<usize> {
    if exists|s: usize| is_best(cands, servers, vms_per_server, s) {
        Some(choose|s: usize| is_best(cands, servers, vms_per_server, s))
    } else {
        None
    }
}

proof fn lemma_best_unique(cands: Set<usize>, servers: Seq<Seq<VNF>>, vms_per_server: int, s: usize)
    requires
        is_best(cands, servers, vms_per_server, s),
    ensures
        best(cands, servers, vms_per_server) == Some(s),
{
    let t = choose|t: usize| is_best(cands, servers, vms_per_server, t);
    assert(cands.contains(t));
    assert(cands.contains(s));
}

/// Placing a VNF on the fullest of the candidate servers that has a VM free, if any has: whether
/// it was placed, the servers used by each service, and the VNFs on each server afterwards.
pub open spec fn try_place_spec(
    vnf: VNF,
    cands: Set<usize>,
    used: Seq<Set<usize>>,
    servers: Seq<Seq<VNF>>,
    vms_per_server: int,
) -> (bool, Seq<Set<usize>>, Seq<Seq<VNF>>) {
    match best(cands, servers, vms_per_server) {
        Some(s) => (
            true,
            used.update(vnf.service_id as int, used[vnf.service_id as int].insert(s)),
            servers.update(s as int, servers[s as int].push(vnf)),
        ),
        None => (false, used, servers),
    }
}

/// Places the VNF on the fullest candidate server that has a VM free (the lowest-numbered of
/// equally full ones), when there is one.
fn try_place_vnf(
    vnf: VNF,
    other_servers: &HashSet<usize>,
    used_servers: &mut Vec<HashSet<usize>>,
    servers: &mut Vec<Vec<VNF>>,
    vms_per_server: usize,
) -> (placed: bool)
    requires
        forall|s: usize| #[trigger] other_servers@.contains(s) ==> s < old(servers)@.len(),
        vnf.service_id < old(used_servers)@.len(),
    ensures
        (placed, used_view(final(used_servers)@), hosted(final(servers)@)) == try_place_spec(vnf, other_servers@,
            used_view(old(used_servers)@), hosted(old(servers)@), vms_per_server as int),
        final(used_servers)@.len() == old(used_servers)@.len(),
        final(servers)@.len() == old(servers)@.len(),
        forall|sid: int, x: usize|
            0 <= sid < old(used_servers)@.len() && #[trigger] final(used_servers)@[sid]@.contains(x)
                ==> old(used_servers)@[sid]@.contains(x) || other_servers@.contains(x),
{
    let ghost sv = hosted(servers@);
    // Find the fullest candidate with a VM free
    let mut found: Option<usize> = None;
    let ghost mut seen: Seq<usize> = Seq::empty();
    for s in it: other_servers.iter()
        invariant
            it.seq().unref().to_set() == other_servers@,
            forall|t: usize| #[trigger] other_servers@.contains(t) ==> t < servers@.len(),
            sv == hosted(servers@),
            seen == it.seq().unref().take(it.index() as int),
            it.index() == it.seq().len() ==> seen =~= it.seq().unref(),
            match found {
                Some(b) => b < servers@.len() && is_best(seen.to_set(), sv, vms_per_server as int, b),
                None => forall|t: usize| #[trigger] seen.to_set().contains(t) ==> !has_room(sv, t, vms_per_server as int),
            },
        ensures
            match found {
                Some(b) => is_best(other_servers@, sv, vms_per_server as int, b),
                None => forall|t: usize| #[trigger] other_servers@.contains(t) ==> !has_room(sv, t, vms_per_server as int),
            },
    {
        let ghost prev = seen;
        proof {
            assert(it.seq().unref().take(it.index() as int + 1) =~= seen.push(*s));
            seen.lemma_push_to_set_commute(*s);
            seen = seen.push(*s);
            assert(other_servers@.contains(*s)) by {
                assert(it.seq().unref().contains(*s)) by {
                    assert(it.seq().unref()[it.index() as int] == *s);
                }
            }
        }
        let u = servers[*s].len();
        let ghost old_found = found;
        if u < vms_per_server {
            match found {
                None => {
                    found = Some(*s);
                },
                Some(b) => {
                    let ub = servers[b].len();
                    if u > ub || (u == ub && *s < b) {
                        found = Some(*s);
                    }
                },
            }
        }
        proof {
            assert(seen.to_set() == prev.to_set().insert(*s));
            match found {
                Some(b) => {
                    assert forall|t: usize| #[trigger] seen.to_set().contains(t) && has_room(sv, t, vms_per_server as int)
                        implies sv[b as int].len() > sv[t as int].len() || (sv[b as int].len() == sv[t as int].len()
                        && b <= t) by {
                        if t != *s {
                            assert(prev.to_set().contains(t));
                        }
                    }
                },
                None => {
                    assert forall|t: usize| #[trigger] seen.to_set().contains(t) implies !has_room(
                        sv,
                        t,
                        vms_per_server as int,
                    ) by {
                        if t != *s {
                            assert(prev.to_set().contains(t));
                        }
                    }
                },
            }
        }
    }
    match found {
        Some(b) => {
            proof {
                lemma_best_unique(other_servers@, sv, vms_per_server as int, b);
            }
            // Place VNF on server
            used_servers[vnf.service_id].insert(b);
            servers[b].push(vnf);
            proof {
                assert(used_view(used_servers@) =~= used_view(old(used_servers)@).update(vnf.service_id as int,
                    used_view(old(used_servers)@)[vnf.service_id as int].insert(b)));
                assert(hosted(servers@) =~= sv.update(b as int, sv[b as int].push(vnf)));
                assert forall|sid: int, x: usize|
                    0 <= sid < old(used_servers)@.len() && #[trigger] used_servers@[sid]@.contains(x) implies old(
                    used_servers)@[sid]@.contains(x) || other_servers@.contains(x) by {
                    if sid != vnf.service_id {
                        assert(used_servers@[sid] == old(used_servers)@[sid]);
                    }
                }
            }
            true
        },
        None => {
            proof {
                assert(!(exists|s: usize| is_best(other_servers@, sv, vms_per_server as int, s)));
            }
            false
        },
    }
}

} // verus!

verus! {

/// The servers of the blocks of `width` consecutive servers that hold a member of `us` (racks
/// for width k/2, pods for width (k/2)^2).
pub open spec fn blocks(us: Set<usize>, width: int) -> Set<usize> {
    Set::new(
        |i: usize|
            exists|u: usize| #[trigger] us.contains(u) && ((u as int) / width) * width <= i < ((u as int) / width) * width + width,
    )
}

/// The servers below `n` in none of the three sets.
pub open spec fn others(n: int, a: Set<usize>, b: Set<usize>, c: Set<usize>) -> Set<usize> {
    Set::new(|i: usize| i < n && !a.contains(i) && !b.contains(i) && !c.contains(i))
}

/// One placement step: the VNF goes to the fullest server with room among those its service
/// already uses; else among the racks of those servers; else among their pods; else among all the
/// other servers; else it is not placed.
pub open spec fn esp_step(
    vnf: VNF,
    used: Seq<Set<usize>>,
    servers: Seq<Seq<VNF>>,
    n: int,
    h: int,
    vps: int,
) -> (Seq<Set<usize>>, Seq<Seq<VNF>>) {
    let u = used[vnf.service_id as int];
    let t1 = try_place_spec(vnf, u, used, servers, vps);
    if !u.is_empty() && t1.0 {
        (t1.1, t1.2)
    } else {
        let r = blocks(u, h);
        let t2 = try_place_spec(vnf, r, used, servers, vps);
        if t2.0 {
            (t2.1, t2.2)
        } else {
            let p = blocks(u, h * h);
            let t3 = try_place_spec(vnf, p, used, servers, vps);
            if t3.0 {
                (t3.1, t3.2)
            } else {
                let t4 = try_place_spec(vnf, others(n, u, r, p), used, servers, vps);
                if t4.0 {
                    (t4.1, t4.2)
                } else {
                    (used, servers)
                }
            }
        }
    }
}

/// The first `m` VNFs of the queue placed one after the other, from no server used.
pub open spec fn esp_run(q: Seq<VNF>, num_services: nat, n: int, h: int, vps: int, m: int) -> (
    Seq<Set<usize>>,
    Seq<Seq<VNF>>,
)
    decreases m,
{
    if m <= 0 {
        (Seq::new(num_services, |i: int| Set::<usize>::empty()), Seq::new(n as nat, |i: int| Seq::<VNF>::empty()))
    } else {
        let (used, servers) = esp_run(q, num_services, n, h, vps, m - 1);
        esp_step(q[m - 1], used, servers, n, h, vps)
    }
}

/// Each server's VNFs in the first VMs of that server, the rest of its `k` VMs empty.
pub open spec fn layout(servers: Seq<Seq<VNF>>, n: int, k: int) -> Seq<Option<VNF>> {
    Seq::new(
        (n * k) as nat,
        |p: int| if p % k < servers[p / k].len() { Some(servers[p / k][p % k]) } else { None },
    )
}

/// An ESP-VDCE placement of some shuffled order of the instances asked for by `ns`.
pub open spec fn esp_outcome(ns: Seq<usize>, services: Seq<Service>, ft: FatTree, vps: int, sol: Seq<Option<VNF>>) -> bool {
    exists|q: Seq<VNF>|
        #![trigger esp_run(q, services.len(), ft.spec_servers(), (ft.num_ports / 2) as int, vps, q.len() as int)]
        queue_from(ns, services, q) && sol == layout(
            esp_run(q, services.len(), ft.spec_servers(), (ft.num_ports / 2) as int, vps, q.len() as int).1,
            ft.spec_servers(),
            ft.vms_per_server as int,
        )
}

/// A copy of a set of servers.
fn copy_set(s: &HashSet<usize>) -> (c: HashSet<usize>)
    ensures
        c@ == s@,
{
    let mut c: HashSet<usize> = HashSet::new();
    let ghost mut seen: Seq<usize> = Seq::empty();
    for x in it: s.iter()
        invariant
            it.seq().unref().to_set() == s@,
            seen == it.seq().unref().take(it.index() as int),
            it.index() == it.seq().len() ==> seen =~= it.seq().unref(),
            c@ == seen.to_set(),
        ensures
            c@ == s@,
    {
        proof {
            assert(it.seq().unref().take(it.index() as int + 1) =~= seen.push(*x));
            seen.lemma_push_to_set_commute(*x);
            seen = seen.push(*x);
        }
        c.insert(*x);
    }
    c
}

/// The union of the blocks of `width` servers holding a member of `us`.
fn block_union(us: &HashSet<usize>, width: usize, n: usize) -> (r: HashSet<usize>)
    requires
        forall|u: usize| #[trigger] us@.contains(u) ==> width > 0 && (u / width) * width + width <= n,
    ensures
        r@ == blocks(us@, width as int),
        forall|i: usize| #[trigger] r@.contains(i) ==> i < n,
{
    let mut r: HashSet<usize> = HashSet::new();
    let ghost mut seen: Seq<usize> = Seq::empty();
    for u in it: us.iter()
        invariant
            it.seq().unref().to_set() == us@,
            forall|u: usize| #[trigger] us@.contains(u) ==> width > 0 && (u / width) * width + width <= n,
            seen == it.seq().unref().take(it.index() as int),
            it.index() == it.seq().len() ==> seen =~= it.seq().unref(),
            r@ == blocks(seen.to_set(), width as int),
            forall|i: usize| #[trigger] r@.contains(i) ==> i < n,
        ensures
            r@ == blocks(us@, width as int),
    {
        let ghost prev = seen;
        proof {
            assert(it.seq().unref().take(it.index() as int + 1) =~= seen.push(*u));
            seen.lemma_push_to_set_commute(*u);
            seen = seen.push(*u);
            assert(us@.contains(*u)) by {
                assert(it.seq().unref()[it.index() as int] == *u);
            }
        }
        let lo = (*u / width) * width;
        let hi = lo + width;
        let mut i = lo;
        while i < hi
            invariant
                lo <= i <= hi,
                hi <= n,
                lo == (*u / width) * width,
                hi == lo + width,
                r@ == blocks(prev.to_set(), width as int).union(Set::new(|x: usize| lo <= x < i)),
                forall|x: usize| #[trigger] r@.contains(x) ==> x < n,
            decreases hi - i,
        {
            r.insert(i);
            i += 1;
            proof {
                assert(r@ =~= blocks(prev.to_set(), width as int).union(Set::new(|x: usize| lo <= x < i)));
            }
        }
        proof {
            assert(seen.to_set() == prev.to_set().insert(*u));
            assert(r@ =~= blocks(seen.to_set(), width as int)) by {
                assert forall|x: usize| r@.contains(x) implies blocks(seen.to_set(), width as int).contains(x) by {
                    if lo <= x < hi {
                        assert(seen.to_set().contains(*u));
                    } else {
                        let w = choose|w: usize| #[trigger] prev.to_set().contains(w) && ((w as int) / (width as int)) * width <= x
                            < ((w as int) / (width as int)) * width + width;
                        assert(seen.to_set().contains(w));
                    }
                }
                assert forall|x: usize| blocks(seen.to_set(), width as int).contains(x) implies r@.contains(x) by {
                    let w = choose|w: usize| #[trigger] seen.to_set().contains(w) && ((w as int) / (width as int)) * width <= x
                        < ((w as int) / (width as int)) * width + width;
                    if w != *u {
                        assert(prev.to_set().contains(w));
                    }
                }
            }
        }
    }
    r
}

} // verus!

verus! {

proof fn lemma_block_fits(u: int, width: int, n: int)
    requires
        0 <= u < n,
        width > 0,
        n % width == 0,
    ensures
        (u / width) * width + width <= n,
{
    vstd::arithmetic::div_mod::lemma_fundamental_div_mod(n, width);
    assert((u / width) * width + width <= n) by (nonlinear_arith)
        requires 0 <= u < n, width > 0, n == width * (n / width);
}

/// Embeds the requested service instances, in shuffled order, VNF by VNF: each VNF stays close to
/// the servers its service already uses (same server, then rack, then pod, then anywhere), on the
/// fullest server with room.
fn esp_vdce(
    ns: &Vec<usize>,
    services: &Vec<Service>,
    ft: &FatTree,
    vms_per_server: usize,
) -> (solution: Solution<VNF>)
    requires
        ft.well_formed(),
        ns@.len() >= services@.len(),
        forall|s: int, j: int|
            0 <= s < services@.len() && 0 <= j < services@[s].vnfs@.len() ==> #[trigger] services@[s].vnfs@[j].service_id
                < services@.len(),
    ensures
        esp_outcome(ns@, services@, *ft, vms_per_server as int, solution@),
{
    proof {
        ft.lemma_parts_bounded();
        ft.lemma_even_shape();
    }
    let num_servers = ft.num_servers();
    let ghost n = num_servers as int;
    let half = ft.num_ports / 2;
    let ghost h = half as int;
    let mut rng = rand::thread_rng();
    let queue = shuffled_queue(ns, services, &mut rng);
    let ghost num_services = services@.len();
    let mut servers: Vec<Vec<VNF>> = Vec::new();
    let mut t: usize = 0;
    while t < num_servers
        invariant
            t <= num_servers,
            servers@.len() == t,
            forall|i: int| 0 <= i < t ==> (#[trigger] servers@[i])@ == Seq::<VNF>::empty(),
        decreases num_servers - t,
    {
        servers.push(Vec::new());
        t += 1;
    }
    let mut all_used: Vec<HashSet<usize>> = Vec::new();
    let mut t: usize = 0;
    while t < services.len()
        invariant
            t <= services@.len(),
            all_used@.len() == t,
            forall|i: int| 0 <= i < t ==> (#[trigger] all_used@[i])@ == Set::<usize>::empty(),
        decreases services@.len() - t,
    {
        all_used.push(HashSet::new());
        t += 1;
    }
    proof {
        assert(used_view(all_used@) =~= esp_run(queue@, num_services, n, h, vms_per_server as int, 0).0);
        assert(hosted(servers@) =~= esp_run(queue@, num_services, n, h, vms_per_server as int, 0).1);
        assert(n == 2 * h * h * h);
        if h > 0 {
            assert(n == (2 * h * h) * h) by (nonlinear_arith) requires n == 2 * h * h * h;
            vstd::arithmetic::div_mod::lemma_mod_multiples_basic(2 * h * h, h);
            assert(n == (2 * h) * (h * h)) by (nonlinear_arith) requires n == 2 * h * h * h;
            assert(h * h > 0) by (nonlinear_arith) requires h > 0;
            vstd::arithmetic::div_mod::lemma_mod_multiples_basic(2 * h, h * h);
            assert(h * h <= n) by (nonlinear_arith) requires n == 2 * h * h * h, h > 0;
        }
    }
    let mut qi: usize = 0;
    while qi < queue.len()
        invariant
            qi <= queue@.len(),
            n == num_servers,
            n == ft.spec_servers(),
            h == half,
            half == ft.num_ports / 2,
            n == 2 * h * h * h,
            h > 0 ==> n % h == 0 && n % (h * h) == 0,
            h * h <= n || n == 0,
            num_services == services@.len(),
            forall|i: int| 0 <= i < queue@.len() ==> in_some_service(services@, #[trigger] queue@[i]),
            forall|s: int, j: int|
                0 <= s < services@.len() && 0 <= j < services@[s].vnfs@.len() ==> #[trigger] services@[s].vnfs@[j].service_id
                    < services@.len(),
            servers@.len() == n,
            all_used@.len() == num_services,
            forall|sid: int, x: usize| 0 <= sid < num_services && #[trigger] all_used@[sid]@.contains(x) ==> x < n,
            (used_view(all_used@), hosted(servers@)) == esp_run(queue@, num_services, n, h, vms_per_server as int,
                qi as int),
        decreases queue@.len() - qi,
    {
        let vnf = queue[qi];
        let sid = vnf.service_id;
        proof {
            let (s, j) = choose|s: int, j: int| 0 <= s < services@.len() && 0 <= j < services@[s].vnfs@.len() && vnf
                == #[trigger] services@[s].vnfs@[j];
            assert(services@[s].vnfs@[j].service_id < services@.len());
        }
        let ghost used0 = used_view(all_used@);
        let ghost servers0 = hosted(servers@);
        let used_srvs = copy_set(&all_used[sid]);
        proof {
            assert(used_srvs@ == used0[sid as int]);
        }
        if !used_srvs.is_empty() {
            if try_place_vnf(vnf, &used_srvs, &mut all_used, &mut servers, vms_per_server) {
                proof {
                    assert(esp_run(queue@, num_services, n, h, vms_per_server as int, qi as int + 1) == esp_step(
                        queue@[qi as int], used0, servers0, n, h, vms_per_server as int));
                }
                qi += 1;
                continue;
            }
        }
        // 1. First consider the servers in the racks of the used servers
        proof {
            assert forall|u: usize| #[trigger] used_srvs@.contains(u) implies half > 0 && (u / half) * half + half
                <= num_servers by {
                assert(u < n);
                assert(h > 0) by (nonlinear_arith) requires n == 2 * h * h * h, 0 <= u < n, h >= 0;
                lemma_block_fits(u as int, h, n);
            }
        }
        let rack_srvs = block_union(&used_srvs, half, num_servers);
        if try_place_vnf(vnf, &rack_srvs, &mut all_used, &mut servers, vms_per_server) {
            qi += 1;
            continue;
        }
        // 2. Otherwise consider the servers in the pods of the used servers
        proof {
            assert(h * h <= usize::MAX) by (nonlinear_arith) requires h * h <= n || n == 0, n <= usize::MAX, h >= 0,
                n == 2 * h * h * h;
        }
        let servers_per_pod = half * half;
        proof {
            assert forall|u: usize| #[trigger] used_srvs@.contains(u) implies servers_per_pod > 0 && (u / servers_per_pod)
                * servers_per_pod + servers_per_pod <= num_servers by {
                assert(u < n);
                assert(h > 0) by (nonlinear_arith) requires n == 2 * h * h * h, 0 <= u < n, h >= 0;
                assert(h * h > 0) by (nonlinear_arith) requires h > 0;
                lemma_block_fits(u as int, h * h, n);
            }
        }
        let pod_srvs = block_union(&used_srvs, servers_per_pod, num_servers);
        if try_place_vnf(vnf, &pod_srvs, &mut all_used, &mut servers, vms_per_server) {
            qi += 1;
            continue;
        }
        // 3. Otherwise choose from the remaining servers
        let mut all_srvs: HashSet<usize> = HashSet::new();
        let mut i: usize = 0;
        while i < num_servers
            invariant
                i <= num_servers,
                all_srvs@ == Set::new(|x: usize| x < i),
            decreases num_servers - i,
        {
            all_srvs.insert(i);
            i += 1;
            proof {
                assert(all_srvs@ =~= Set::new(|x: usize| x < i));
            }
        }
        set_subtract(&mut all_srvs, &used_srvs);
        set_subtract(&mut all_srvs, &rack_srvs);
        set_subtract(&mut all_srvs, &pod_srvs);
        proof {
            assert(all_srvs@ =~= others(n, used_srvs@, rack_srvs@, pod_srvs@));
        }
        if try_place_vnf(vnf, &all_srvs, &mut all_used, &mut servers, vms_per_server) {
            qi += 1;
            continue;
        }
        qi += 1;
    }
    // Lay the servers out VM by VM
    let k = ft.vms_per_server;
    let mut solution: Vec<Option<VNF>> = Vec::new();
    let ghost final_servers = hosted(servers@);
    let mut s: usize = 0;
    while s < num_servers
        invariant
            s <= num_servers,
            servers@.len() == num_servers,
            final_servers == hosted(servers@),
            k == ft.vms_per_server,
            n == num_servers,
            n * k <= usize::MAX,
            solution@.len() == s * k,
            forall|p: int| 0 <= p < s * k ==> #[trigger] solution@[p] == layout(final_servers, n, k as int)[p],
        decreases num_servers - s,
    {
        let mut i: usize = 0;
        while i < k
            invariant
                s < num_servers,
                servers@.len() == num_servers,
                final_servers == hosted(servers@),
                k == ft.vms_per_server,
                n == num_servers,
                n * k <= usize::MAX,
                i <= k,
                solution@.len() == s * k + i,
                forall|p: int| 0 <= p < s * k + i ==> #[trigger] solution@[p] == layout(final_servers, n, k as int)[p],
            decreases k - i,
        {
            proof {
                assert(0 <= s * k + i < n * k) by (nonlinear_arith) requires s < n, i < k;
                vstd::arithmetic::div_mod::lemma_fundamental_div_mod_converse(s * k + i, k as int, s as int, i as int);
            }
            let entry = if i < servers[s].len() {
                Some(servers[s][i])
            } else {
                None
            };
            solution.push(entry);
            i += 1;
        }
        proof {
            assert(s * k + k == (s + 1) * k) by (nonlinear_arith);
        }
        s += 1;
    }
    proof {
        assert(num_servers * k == ft.spec_vms());
        assert(solution@ =~= layout(final_servers, n, k as int));
    }
    solution
}

} // verus!

verus! {

/// ESP-VDCE placements, one for each requested instance count.
pub fn run(nss: &Vec<Vec<usize>>, services: &Vec<Service>, ft: &FatTree, vms_per_server: usize, pop_size: usize) -> (solutions:
    Vec<Solution<VNF>>)
    requires
        ft.well_formed(),
        nss@.len() >= pop_size,
        forall|i: int| 0 <= i < pop_size ==> #[trigger] nss@[i]@.len() >= services@.len(),
        forall|s: int, j: int|
            0 <= s < services@.len() && 0 <= j < services@[s].vnfs@.len() ==> #[trigger] services@[s].vnfs@[j].service_id
                < services@.len(),
    ensures
        solutions@.len() == pop_size,
        forall|i: int|
            0 <= i < pop_size ==> esp_outcome(nss@[i]@, services@, *ft, vms_per_server as int, #[trigger] solutions@[i]@),
{
    let mut solutions: Vec<Solution<VNF>> = Vec::new();
    let mut i: usize = 0;
    while i < pop_size
        invariant
            i <= pop_size,
            ft.well_formed(),
            nss@.len() >= pop_size,
            forall|i: int| 0 <= i < pop_size ==> #[trigger] nss@[i]@.len() >= services@.len(),
            forall|s: int, j: int|
                0 <= s < services@.len() && 0 <= j < services@[s].vnfs@.len() ==> #[trigger] services@[s].vnfs@[j].service_id
                    < services@.len(),
            solutions@.len() == i,
            forall|j: int|
                0 <= j < i ==> esp_outcome(nss@[j]@, services@, *ft, vms_per_server as int, #[trigger] solutions@[j]@),
        decreases pop_size - i,
    {
        let solution = esp_vdce(&nss[i], services, ft, vms_per_server);
        solutions.push(solution);
        i += 1;
    }
    solutions
}

} // verus!
