use vstd::prelude::*;

use crate::instances::{queue_from, shuffled_queue};
use crate::operators::Solution;
use crate::service::{Service, VNF};

verus! {

/// The turn at which the round-robin fill reaches slot `c` of server `s` of `n` servers: the
/// first two slots of every server in server order, then one more slot per server per round,
/// with the server order reversed every round.
pub open spec fn rr_rank(s: int, c: int, n: int) -> int {
    if c < 2 {
        2 * s + c
    } else {
        2 * n + (c - 2) * n + (if (c - 1) % 2 == 1 { n - 1 - s } else { s })
    }
}

/// The placement that round-robin makes of a queue of VNFs over `n` servers of `vps` VMs: each
/// VM takes the queue entry of its turn, while the queue lasts. With fewer than two VMs per
/// server nothing is placed.
pub open spec fn rr_spec(q: Seq<VNF>, vps: int, n: int) -> Seq<Option<VNF>> {
    Seq::new(
        (vps * n) as nat,
        |p: int|
            {
                let k = rr_rank(p / vps, p % vps, n);
                if vps >= 2 && k < q.len() {
                    Some(q[k])
                } else {
                    None
                }
            },
    )
}

/// A round-robin placement of some shuffled order of the instances asked for by `ns`.
pub open spec fn rr_outcome(ns: Seq<usize>, services: Seq<Service>, vps: int, n: int, sol: Seq<Option<VNF>>) -> bool {
    exists|q: Seq<VNF>| #![trigger rr_spec(q, vps, n)] queue_from(ns, services, q) && sol == rr_spec(q, vps, n)
}

/// Round-robin gives each turn to one VM only: two different VMs of `n` servers of `vps >= 2`
/// VMs each have different turns, and every turn lies below `vps * n`.
pub proof fn lemma_rr_turns_distinct(s1: int, c1: int, s2: int, c2: int, n: int, vps: int)
    requires
        vps >= 2,
        0 <= s1 < n,
        0 <= s2 < n,
        0 <= c1 < vps,
        0 <= c2 < vps,
        s1 != s2 || c1 != c2,
    ensures
        rr_rank(s1, c1, n) != rr_rank(s2, c2, n),
        0 <= rr_rank(s1, c1, n) < vps * n,
{
    assert(0 <= rr_rank(s1, c1, n) < vps * n) by {
        if c1 >= 2 {
            assert(2 * n + (c1 - 2) * n + n <= vps * n) by (nonlinear_arith) requires 2 <= c1 < vps, n > 0;
            assert(0 <= (c1 - 2) * n) by (nonlinear_arith) requires 2 <= c1, n > 0;
        } else {
            assert(2 * n <= vps * n) by (nonlinear_arith) requires vps >= 2, n > 0;
        }
    }
    let o1 = if (c1 - 1) % 2 == 1 { n - 1 - s1 } else { s1 };
    let o2 = if (c2 - 1) % 2 == 1 { n - 1 - s2 } else { s2 };
    if c1 < 2 && c2 < 2 {
    } else if c1 < 2 {
        assert(0 <= (c2 - 2) * n) by (nonlinear_arith) requires 2 <= c2, n > 0;
    } else if c2 < 2 {
        assert(0 <= (c1 - 2) * n) by (nonlinear_arith) requires 2 <= c1, n > 0;
    } else if c1 == c2 {
    } else {
        // different rounds: each round holds n turns
        assert((c1 - 2) * n + o1 != (c2 - 2) * n + o2) by (nonlinear_arith)
            requires c1 != c2, 0 <= o1 < n, 0 <= o2 < n, n > 0;
    }
}

/// Every turn below `vps * n` is the turn of some VM: with the previous law, the turns of
/// round-robin are a numbering of the VMs.
pub proof fn lemma_rr_turns_cover(k: int, n: int, vps: int)
    requires
        vps >= 2,
        n > 0,
        0 <= k < vps * n,
    ensures
        exists|s: int, c: int| 0 <= s < n && 0 <= c < vps && #[trigger] rr_rank(s, c, n) == k,
{
    if k < 2 * n {
        let s = k / 2;
        let c = k % 2;
        assert(rr_rank(s, c, n) == k);
    } else {
        let c = 2 + (k - 2 * n) / n;
        let r = (k - 2 * n) % n;
        let s = if (c - 1) % 2 == 1 { n - 1 - r } else { r };
        assert(c < vps) by (nonlinear_arith) requires k < vps * n, k >= 2 * n, n > 0, c == 2 + (k - 2 * n) / n;
        assert((c - 2) * n + r == k - 2 * n) by (nonlinear_arith)
            requires c == 2 + (k - 2 * n) / n, r == (k - 2 * n) % n, n > 0;
        assert(rr_rank(s, c, n) == k);
    }
}

proof fn lemma_div_in(p: int, vps: int, n: int)
    requires
        0 <= p < vps * n,
        vps >= 0,
        n >= 0,
    ensures
        vps > 0,
        0 <= p / vps < n,
        0 <= p % vps < vps,
{
    assert(vps > 0) by (nonlinear_arith) requires 0 <= p < vps * n, vps >= 0, n >= 0;
    assert(0 <= p / vps < n) by (nonlinear_arith) requires 0 <= p < vps * n, vps > 0;
}

proof fn lemma_pos_split(i: int, j: int, vps: int, n: int)
    requires
        0 <= i < n,
        0 <= j < vps,
    ensures
        0 <= i * vps + j < vps * n,
        (i * vps + j) / vps == i,
        (i * vps + j) % vps == j,
{
    assert(0 <= i * vps + j < vps * n) by (nonlinear_arith) requires 0 <= i < n, 0 <= j < vps;
    vstd::arithmetic::div_mod::lemma_fundamental_div_mod_converse(i * vps + j, vps, i, j);
}

/// Slot `c` of server `s` takes, of the queue: entry `2s + c` for the first two slots; then,
/// round by round, the `n` entries after the first `2n + (c - 2)n`, handed to the servers in
/// descending order in even rounds and ascending order in odd ones.
pub proof fn lemma_rr_slot_entries(q: Seq<VNF>, vps: int, n: int, s: int, c: int)
    requires
        vps >= 2,
        0 <= s < n,
        0 <= c < vps,
    ensures
        ({
            let k = if c < 2 {
                2 * s + c
            } else if c % 2 == 0 {
                2 * n + (c - 2) * n + (n - 1 - s)
            } else {
                2 * n + (c - 2) * n + s
            };
            rr_spec(q, vps, n)[s * vps + c] == if k < q.len() {
                Some(q[k])
            } else {
                None
            }
        }),
{
    lemma_pos_split(s, c, vps, n);
    assert(c % 2 == 0 <==> (c - 1) % 2 == 1);
}

/// The server order turns round every round: from the third slot on, slot `c + 1` of server `s`
/// is filled as slot `c` of the mirrored server `n - 1 - s` would be from the queue without its
/// first `n` entries.
pub proof fn lemma_rr_rounds_alternate(q: Seq<VNF>, vps: int, n: int, s: int, c: int)
    requires
        vps >= 2,
        0 <= s < n,
        2 <= c,
        c + 1 < vps,
        q.len() >= n,
    ensures
        rr_spec(q, vps, n)[s * vps + (c + 1)] == rr_spec(q.skip(n), vps, n)[(n - 1 - s) * vps + c],
{
    lemma_rr_slot_entries(q, vps, n, s, c + 1);
    lemma_rr_slot_entries(q.skip(n), vps, n, n - 1 - s, c);
    assert((c + 1) % 2 == 0 <==> c % 2 == 1);
    assert((c - 1) * n == (c - 2) * n + n) by (nonlinear_arith);
}


fn round_robin(ns: &Vec<usize>, services: &Vec<Service>, vms_per_server: usize, num_servers: usize) -> (solution:
    Solution<VNF>)
    requires
        ns@.len() >= services@.len(),
        vms_per_server * num_servers <= usize::MAX,
        vms_per_server < usize::MAX,
    ensures
        rr_outcome(ns@, services@, vms_per_server as int, num_servers as int, solution@),
{
    let num_vms = vms_per_server * num_servers;
    let mut rng = rand::thread_rng();
    let queue = shuffled_queue(ns, services, &mut rng);
    let ghost vps = vms_per_server as int;
    let ghost n = num_servers as int;
    let ghost target = rr_spec(queue@, vps, n);
    let mut solution: Vec<Option<VNF>> = Vec::new();
    let mut t: usize = 0;
    while t < num_vms
        invariant
            t <= num_vms,
            solution@ =~= Seq::new(t as nat, |i: int| None::<VNF>),
        decreases num_vms - t,
    {
        solution.push(None);
        t += 1;
    }
    // Round robin placement
    let mut min: usize = 0;
    let mut max: usize = 2;
    let mut num_placed: usize = 0;
    let mut descending = false;
    while num_placed < num_vms && max <= vms_per_server
        invariant
            num_vms == vps * n,
            vms_per_server < usize::MAX,
            vps == vms_per_server,
            n == num_servers,
            target == rr_spec(queue@, vps, n),
            solution@.len() == num_vms,
            max == (if min == 0 { 2 } else { min + 1 }),
            min <= vps,
            min == 0 || min >= 2,
            num_placed == min * n,
            min > 0 ==> descending == ((min - 1) % 2 == 1),
            min == 0 ==> !descending,
            forall|p: int|
                0 <= p < num_vms ==> #[trigger] solution@[p] == (if p % vps < min { target[p] } else { None }),
        decreases vps + 1 - min,
    {
        let ghost col_lo = min as int;
        proof {
            assert((min as int) * n + (max - min) * n <= vps * n) by (nonlinear_arith)
                requires max <= vps, min <= max, n >= 0;
        }
        let mut idx: usize = 0;
        proof {
            assert forall|p: int| 0 <= p < num_vms implies #[trigger] solution@[p] == (if p % vps < min || (min
                <= p % vps < max && (if descending { n - 1 - p / vps } else { p / vps }) < idx) { target[p] }
                else { None }) by {
                lemma_div_in(p, vps, n);
            }
            assert(num_placed == min * n + idx * (max - min)) by (nonlinear_arith) requires num_placed == min * n, idx == 0;
        }
        while idx < num_servers
            invariant
                num_vms == vps * n,
                vps == vms_per_server,
                n == num_servers,
                target == rr_spec(queue@, vps, n),
                solution@.len() == num_vms,
                max == (if min == 0 { 2 } else { min + 1 }),
                max <= vps,
                min == col_lo,
                min == 0 || min >= 2,
                min > 0 ==> descending == ((min - 1) % 2 == 1),
                min == 0 ==> !descending,
                idx <= n,
                num_placed == min * n + idx * (max - min),
                (min as int) * n + (max - min) * n <= vps * n,
                forall|p: int|
                    0 <= p < num_vms ==> #[trigger] solution@[p] == (if p % vps < min || (min <= p % vps < max && (
                    if descending { n - 1 - p / vps } else { p / vps }) < idx) { target[p] } else { None }),
            decreases n - idx,
        {
            let i = if descending { num_servers - 1 - idx } else { idx };
            proof {
                assert((idx as int) * (max - min) + (max - min) <= n * (max - min)) by (nonlinear_arith)
                    requires idx < n, max >= min;
                assert(n * (max - min) == (max - min) * n) by (nonlinear_arith);
            }
            let mut j = min;
            while j < max
                invariant
                    num_vms == vps * n,
                    vps == vms_per_server,
                    n == num_servers,
                    target == rr_spec(queue@, vps, n),
                    solution@.len() == num_vms,
                    max == (if min == 0 { 2 } else { min + 1 }),
                    max <= vps,
                    min == col_lo,
                    min == 0 || min >= 2,
                    min > 0 ==> descending == ((min - 1) % 2 == 1),
                    min == 0 ==> !descending,
                    idx < n,
                    i == (if descending { n - 1 - idx } else { idx as int }),
                    min <= j <= max,
                    num_placed == min * n + idx * (max - min) + (j - min),
                    (idx as int) * (max - min) + (max - min) <= n * (max - min),
                    (min as int) * n + (max - min) * n <= vps * n,
                    forall|p: int|
                        0 <= p < num_vms ==> #[trigger] solution@[p] == (if p % vps < min || (min <= p % vps < max && (
                        if descending { n - 1 - p / vps } else { p / vps }) < idx) || (p / vps == i && min <= p % vps
                            < j) { target[p] } else { None }),
                decreases max - j,
            {
                proof {
                    lemma_pos_split(i as int, j as int, vps, n);
                }
                let pos = i * vms_per_server + j;
                let entry = if num_placed < queue.len() {
                    Some(queue[num_placed])
                } else {
                    None
                };
                proof {
                    let k = rr_rank(i as int, j as int, n);
                    if min == 0 {
                        assert(k == 2 * i + j);
                        assert(num_placed == idx * 2 + j) by (nonlinear_arith)
                            requires num_placed == min * n + idx * (max - min) + (j - min), min == 0, max == 2;
                        assert(i == idx);
                    } else {
                        assert(k == 2 * n + (j - 2) * n + (if (j - 1) % 2 == 1 { n - 1 - i } else { i as int }));
                        assert(j == min);
                        assert(num_placed == min * n + idx) by (nonlinear_arith)
                            requires num_placed == min * n + idx * (max - min) + (j - min), max == min + 1, j == min;
                        assert(min * n == 2 * n + (min - 2) * n) by (nonlinear_arith);
                    }
                    assert(num_placed == k);
                    assert(target[pos as int] == entry);
                }
                solution.set(pos, entry);
                num_placed = num_placed + 1;
                j += 1;
                proof {
                    assert forall|p: int| 0 <= p < num_vms implies #[trigger] solution@[p] == (if p % vps < min || (min
                        <= p % vps < max && (if descending { n - 1 - p / vps } else { p / vps }) < idx) || (p / vps
                        == i && min <= p % vps < j) { target[p] } else { None }) by {
                        if p == pos {
                            assert(p / vps == i && p % vps == j - 1);
                        } else if p / vps == i && p % vps == j - 1 {
                            lemma_pos_split(i as int, j - 1, vps, n);
                            lemma_div_in(p, vps, n);
                            vstd::arithmetic::div_mod::lemma_fundamental_div_mod(p, vps);
                            let ii = i as int;
                            let jj = j - 1;
                            assert(p == ii * vps + jj) by (nonlinear_arith)
                                requires p == vps * (p / vps) + (p % vps), p / vps == ii, p % vps == jj;
                        }
                    }
                }
            }
            proof {
                assert(num_placed == min * n + (idx + 1) * (max - min)) by (nonlinear_arith)
                    requires num_placed == min * n + idx * (max - min) + (max - min);
            }
            idx += 1;
            proof {
                assert forall|p: int| 0 <= p < num_vms implies #[trigger] solution@[p] == (if p % vps < min || (min
                    <= p % vps < max && (if descending { n - 1 - p / vps } else { p / vps }) < idx) { target[p] }
                    else { None }) by {
                    lemma_div_in(p, vps, n);
                }
            }
        }
        min = max;
        max = max + 1;
        descending = !descending;
        proof {
            assert(num_placed == min * n) by (nonlinear_arith)
                requires num_placed == col_lo * n + n * (min - col_lo);
            assert forall|p: int| 0 <= p < num_vms implies #[trigger] solution@[p] == (if p % vps < min { target[p] }
                else { None }) by {
                lemma_div_in(p, vps, n);
            }
        }
    }
    proof {
        assert(solution@ =~= target) by {
            assert forall|p: int| 0 <= p < num_vms implies solution@[p] == target[p] by {
                lemma_div_in(p, vps, n);
                if min >= 2 && num_placed >= num_vms {
                    assert(min >= vps) by (nonlinear_arith) requires min * n >= vps * n, n > 0;
                }
                assert(solution@[p] == (if p % vps < min { target[p] } else { None }));
            }
        }
    }
    solution
}

/// Round-robin placements, one for each requested instance count.
pub fn run(nss: &Vec<Vec<usize>>, services: &Vec<Service>, num_servers: usize, vms_per_server: usize, pop_size: usize)
    -> (solutions: Vec<Solution<VNF>>)
    requires
        nss@.len() >= pop_size,
        forall|i: int| 0 <= i < pop_size ==> #[trigger] nss@[i]@.len() >= services@.len(),
        vms_per_server * num_servers <= usize::MAX,
        vms_per_server < usize::MAX,
    ensures
        solutions@.len() == pop_size,
        forall|i: int|
            0 <= i < pop_size ==> rr_outcome(nss@[i]@, services@, vms_per_server as int, num_servers as int,
                #[trigger] solutions@[i]@),
{
    let mut solutions: Vec<Solution<VNF>> = Vec::new();
    let mut i: usize = 0;
    while i < pop_size
        invariant
            i <= pop_size,
            nss@.len() >= pop_size,
            forall|i: int| 0 <= i < pop_size ==> #[trigger] nss@[i]@.len() >= services@.len(),
            vms_per_server * num_servers <= usize::MAX,
            vms_per_server < usize::MAX,
            solutions@.len() == i,
            forall|j: int|
                0 <= j < i ==> rr_outcome(nss@[j]@, services@, vms_per_server as int, num_servers as int,
                    #[trigger] solutions@[j]@),
        decreases pop_size - i,
    {
        let solution = round_robin(&nss[i], services, vms_per_server, num_servers);
        solutions.push(solution);
        i += 1;
    }
    solutions
}

} // verus!
