use vstd::prelude::*;

use crate::service::VNF;

verus! {

/// `s` with `x` put after every entry whose capacity is at most that of `x`: one step of a
/// stable sort by capacity.
pub open spec fn insert_by_cap(s: Seq<usize>, x: usize, caps: Seq<usize>) -> Seq<usize>
    decreases s.len(),
{
    if s.len() == 0 {
        seq![x]
    } else if caps[s.last() as int] <= caps[x as int] {
        s.push(x)
    } else {
        insert_by_cap(s.drop_last(), x, caps).push(s.last())
    }
}

/// The servers in ascending order of remaining capacity, equal ones in their given order.
pub open spec fn sort_by_cap(s: Seq<usize>, caps: Seq<usize>) -> Seq<usize>
    decreases s.len(),
{
    if s.len() == 0 {
        Seq::empty()
    } else {
        insert_by_cap(sort_by_cap(s.drop_last(), caps), s.last(), caps)
    }
}

/// The servers of the list that still have a VM free, in list order.
pub open spec fn with_room(s: Seq<usize>, caps: Seq<usize>) -> Seq<usize> {
    s.filter(room_left(caps))
}

/// A server has a VM free.
pub open spec fn room_left(caps: Seq<usize>) -> spec_fn(usize) -> bool {
    |x: usize| caps[x as int] >= 1
}

/// Best-fit decreasing placement state: the VM placement so far, the servers not used yet, the
/// used list, and the free VMs left on each server.
pub struct BfdsuState {
    pub solution: Vec<Option<VNF>>,
    pub spare: Vec<usize>,
    pub used: Vec<usize>,
    pub capacities: Vec<usize>,
    pub vms_per_server: usize,
}

impl BfdsuState {
    /// Server `s` is on the spare list or on the used list.
    pub open spec fn listed(&self, s: usize) -> bool {
        self.spare@.contains(s) || self.used@.contains(s)
    }

    /// Capacities within a server's VMs, listed servers within the data centre, and every server
    /// listed as spare or used.
    pub open spec fn wf(&self) -> bool {
        let n = self.capacities@.len();
        &&& self.solution@.len() == n * self.vms_per_server
        &&& forall|s: int| 0 <= s < n ==> #[trigger] self.capacities@[s] <= self.vms_per_server
        &&& self.spare@.len() <= n
        &&& forall|i: int| 0 <= i < self.spare@.len() ==> #[trigger] self.spare@[i] < n
        &&& forall|i: int| 0 <= i < self.used@.len() ==> #[trigger] self.used@[i] < n
        &&& forall|s: usize| (s as int) < n ==> #[trigger] self.listed(s)
    }

    /// Every server unused and empty.
    pub fn new(num_servers: usize, vms_per_server: usize) -> (st: BfdsuState)
        requires
            num_servers * vms_per_server <= usize::MAX,
        ensures
            st.wf(),
            st.vms_per_server == vms_per_server,
            st.solution@ == Seq::new((num_servers * vms_per_server) as nat, |i: int| None::<VNF>),
            st.spare@ == Seq::new(num_servers as nat, |i: int| i as usize),
            st.used@ == Seq::<usize>::empty(),
            st.capacities@ == Seq::new(num_servers as nat, |i: int| vms_per_server),
    {
        let num_vms = vms_per_server * num_servers;
        let mut solution: Vec<Option<VNF>> = Vec::new();
        let mut t: usize = 0;
        while t < num_vms
            invariant
                t <= num_vms,
                solution@ =~= Seq::new(t as nat, |i: int| None::<VNF>),
            decreases num_vms - t,
        {
            solution.push(None);
            t += 1;
        }
        let mut spare: Vec<usize> = Vec::new();
        let mut capacities: Vec<usize> = Vec::new();
        let mut t: usize = 0;
        while t < num_servers
            invariant
                t <= num_servers,
                spare@ =~= Seq::new(t as nat, |i: int| i as usize),
                capacities@ =~= Seq::new(t as nat, |i: int| vms_per_server),
            decreases num_servers - t,
        {
            spare.push(t);
            capacities.push(vms_per_server);
            t += 1;
        }
        assert(num_vms == num_servers * vms_per_server) by (nonlinear_arith)
            requires num_vms == vms_per_server * num_servers;
        let st = BfdsuState { solution, spare, used: Vec::new(), capacities, vms_per_server };
        assert forall|s: usize| (s as int) < num_servers implies #[trigger] st.listed(s) by {
            assert(st.spare@[s as int] == s);
        }
        st
    }

    /// The candidate servers for the next VM: the used servers with room or, when none has room,
    /// the unused servers with room; in ascending order of remaining capacity, equal ones in list
    /// order. There is none exactly when every server is full.
    pub fn candidates(&self) -> (available: Vec<usize>)
        requires
            self.wf(),
        ensures
            available@ == sort_by_cap(
                if with_room(self.used@, self.capacities@).len() > 0 {
                    with_room(self.used@, self.capacities@)
                } else {
                    with_room(self.spare@, self.capacities@)
                },
                self.capacities@,
            ),
            available@.len() == 0 <==> forall|s: int| 0 <= s < self.capacities@.len() ==> #[trigger] self.capacities@[s]
                == 0,
    {
        let mut available = self.servers_with_room(&self.used);
        if available.len() == 0 {
            available = self.servers_with_room(&self.spare);
        }
        let ghost input = available@;
        proof {
            self.lemma_room_iff_not_full();
            lemma_sort_len(input, self.capacities@);
        }
        sort_servers(&mut available, &self.capacities);
        available
    }

    /// Some listed server has a VM free exactly when some server has.
    proof fn lemma_room_iff_not_full(&self)
        requires
            self.wf(),
        ensures
            (with_room(self.used@, self.capacities@).len() > 0 || with_room(self.spare@, self.capacities@).len() > 0)
                <==> exists|s: int| 0 <= s < self.capacities@.len() && #[trigger] self.capacities@[s] >= 1,
    {
        let caps = self.capacities@;
        let pred = room_left(caps);
        assert(caps.len() <= usize::MAX) by {
            assert(self.capacities.len() == caps.len());
        }
        self.used@.filter_lemma(pred);
        self.spare@.filter_lemma(pred);
        if exists|s: int| 0 <= s < caps.len() && #[trigger] caps[s] >= 1 {
            let s = choose|s: int| 0 <= s < caps.len() && #[trigger] caps[s] >= 1;
            let su = s as usize;
            assert(self.listed(su));
            if self.used@.contains(su) {
                let i = choose|i: int| 0 <= i < self.used@.len() && self.used@[i] == su;
                assert(with_room(self.used@, caps).contains(self.used@[i]));
            } else {
                let i = choose|i: int| 0 <= i < self.spare@.len() && self.spare@[i] == su;
                assert(with_room(self.spare@, caps).contains(self.spare@[i]));
            }
        }
        if with_room(self.used@, caps).len() > 0 {
            let x = with_room(self.used@, caps)[0];
            assert(with_room(self.used@, caps).contains(x));
            self.used@.lemma_filter_contains_rev(pred, x);
            assert(caps[x as int] >= 1);
        }
        if with_room(self.spare@, caps).len() > 0 {
            let x = with_room(self.spare@, caps)[0];
            assert(with_room(self.spare@, caps).contains(x));
            self.spare@.lemma_filter_contains_rev(pred, x);
            assert(caps[x as int] >= 1);
        }
    }

    fn servers_with_room(&self, list: &Vec<usize>) -> (r: Vec<usize>)
        requires
            self.wf(),
            forall|i: int| 0 <= i < list@.len() ==> #[trigger] list@[i] < self.capacities@.len(),
        ensures
            r@ == with_room(list@, self.capacities@),
            forall|i: int| 0 <= i < r@.len() ==> #[trigger] r@[i] < self.capacities@.len(),
    {
        let mut r: Vec<usize> = Vec::new();
        let mut i: usize = 0;
        while i < list.len()
            invariant
                i <= list@.len(),
                forall|i: int| 0 <= i < list@.len() ==> #[trigger] list@[i] < self.capacities@.len(),
                r@ == with_room(list@.subrange(0, i as int), self.capacities@),
                forall|i: int| 0 <= i < r@.len() ==> #[trigger] r@[i] < self.capacities@.len(),
            decreases list@.len() - i,
        {
            let server = list[i];
            proof {
                let sub = list@.subrange(0, i as int + 1);
                assert(sub.drop_last() =~= list@.subrange(0, i as int));
                reveal_with_fuel(Seq::filter, 1);
            }
            if self.capacities[server] >= 1 {
                r.push(server);
            }
            i += 1;
        }
        proof {
            assert(list@.subrange(0, list@.len() as int) =~= list@);
        }
        r
    }

    /// Puts the VM on the next free VM of server `s`; a server used for the first time moves from
    /// the spare list (its place taken by the last spare server) to the end of the used list.
    pub fn place(&mut self, s: usize, vm: Option<VNF>)
        requires
            old(self).wf(),
            s < old(self).capacities@.len(),
            old(self).capacities@[s as int] >= 1,
        ensures
            final(self).wf(),
            final(self).vms_per_server == old(self).vms_per_server,
            final(self).solution@ == old(self).solution@.update(
                s * old(self).vms_per_server + (old(self).vms_per_server - old(self).capacities@[s as int]),
                vm,
            ),
            final(self).capacities@ == old(self).capacities@.update(s as int, (old(self).capacities@[s as int] - 1) as usize),
            old(self).spare@.contains(s) ==> {
                let i = choose|i: int|
                    0 <= i < old(self).spare@.len() && #[trigger] old(self).spare@[i] == s && forall|j: int|
                        0 <= j < i ==> old(self).spare@[j] != s;
                &&& final(self).spare@ == old(self).spare@.update(i, old(self).spare@.last()).drop_last()
                &&& final(self).used@ == old(self).used@.push(s)
            },
            !old(self).spare@.contains(s) ==> final(self).spare@ == old(self).spare@ && final(self).used@ == old(
                self,
            ).used@,
    {
        let vps = self.vms_per_server;
        let cap = self.capacities[s];
        proof {
            assert(self.solution@.len() == self.solution.len());
            assert(s * vps + (vps - cap) < self.capacities@.len() * vps) by (nonlinear_arith)
                requires s < self.capacities@.len(), 1 <= cap <= vps;
        }
        let vm_id = s * vps + (vps - cap);
        self.solution.set(vm_id, vm);
        self.capacities.set(s, cap - 1);
        // Update tables
        let mut i: usize = 0;
        while i < self.spare.len() && self.spare[i] != s
            invariant
                i <= self.spare@.len(),
                forall|j: int| 0 <= j < i ==> self.spare@[j] != s,
            decreases self.spare@.len() - i,
        {
            i += 1;
        }
        let ghost sp = self.spare@;
        if i < self.spare.len() {
            proof {
                assert(sp[i as int] == s);
                let c = choose|c: int| 0 <= c < sp.len() && #[trigger] sp[c] == s && forall|j: int| 0 <= j < c ==> sp[j] != s;
                if c < i {
                    assert(sp[c] != s);
                } else if c > i {
                    assert(sp[i as int] != s);
                }
            }
            let ghost us = self.used@;
            self.spare.swap_remove(i);
            self.used.push(s);
            proof {
                assert(self.spare@ =~= sp.update(i as int, sp.last()).drop_last());
                assert forall|t: usize| (t as int) < self.capacities@.len() implies #[trigger] self.listed(t) by {
                    if t == s {
                        assert(self.used@[us.len() as int] == s);
                    } else if us.contains(t) {
                        let j = choose|j: int| 0 <= j < us.len() && us[j] == t;
                        assert(self.used@[j] == t);
                    } else {
                        assert(old(self).listed(t));
                        assert(sp.contains(t));
                        let j = choose|j: int| 0 <= j < sp.len() && sp[j] == t;
                        if j == sp.len() - 1 {
                            assert(self.spare@[i as int] == t);
                        } else {
                            assert(j != i);
                            assert(self.spare@[j] == t);
                        }
                    }
                }
            }
        } else {
            proof {
                assert(!sp.contains(s));
                assert forall|t: usize| (t as int) < self.capacities@.len() implies #[trigger] self.listed(t) by {
                    assert(old(self).listed(t));
                }
            }
        }
    }
}

proof fn lemma_insert_len(s: Seq<usize>, x: usize, caps: Seq<usize>)
    ensures
        insert_by_cap(s, x, caps).len() == s.len() + 1,
    decreases s.len(),
{
    if s.len() > 0 && caps[s.last() as int] > caps[x as int] {
        lemma_insert_len(s.drop_last(), x, caps);
    }
}

proof fn lemma_sort_len(s: Seq<usize>, caps: Seq<usize>)
    ensures
        sort_by_cap(s, caps).len() == s.len(),
    decreases s.len(),
{
    if s.len() > 0 {
        lemma_sort_len(s.drop_last(), caps);
        lemma_insert_len(sort_by_cap(s.drop_last(), caps), s.last(), caps);
    }
}

/// Stable insertion sort of servers by remaining capacity.
fn sort_servers(v: &mut Vec<usize>, caps: &Vec<usize>)
    requires
        forall|i: int| 0 <= i < old(v)@.len() ==> #[trigger] old(v)@[i] < caps@.len(),
    ensures
        final(v)@ == sort_by_cap(old(v)@, caps@),
{
    let input = v.clone();
    proof {
        assert(input@ =~= v@);
    }
    let mut sorted: Vec<usize> = Vec::new();
    let mut i: usize = 0;
    while i < input.len()
        invariant
            i <= input@.len(),
            forall|i: int| 0 <= i < input@.len() ==> #[trigger] input@[i] < caps@.len(),
            sorted@ == sort_by_cap(input@.subrange(0, i as int), caps@),
            forall|j: int| 0 <= j < sorted@.len() ==> #[trigger] sorted@[j] < caps@.len(),
        decreases input@.len() - i,
    {
        let x = input[i];
        proof {
            let sub = input@.subrange(0, i as int + 1);
            assert(sub.drop_last() =~= input@.subrange(0, i as int));
        }
        insert_server(&mut sorted, x, caps);
        i += 1;
    }
    proof {
        assert(input@.subrange(0, input@.len() as int) =~= input@);
    }
    *v = sorted;
}

fn insert_server(v: &mut Vec<usize>, x: usize, caps: &Vec<usize>)
    requires
        x < caps@.len(),
        forall|j: int| 0 <= j < old(v)@.len() ==> #[trigger] old(v)@[j] < caps@.len(),
    ensures
        final(v)@ == insert_by_cap(old(v)@, x, caps@),
        forall|j: int| 0 <= j < final(v)@.len() ==> #[trigger] final(v)@[j] < caps@.len(),
    decreases old(v)@.len(),
{
    if v.len() == 0 {
        v.push(x);
        return;
    }
    let last = v[v.len() - 1];
    if caps[last] <= caps[x] {
        v.push(x);
    } else {
        let y = v.pop().unwrap();
        insert_server(v, x, caps);
        v.push(y);
    }
}

} // verus!
