use vstd::prelude::*;

use crate::fat_tree::FatTree;
use crate::model::{
    lemma_walk_visits_all, visit_order, in_degree, lemma_edges_append_empty, lemma_edges_none, lemma_edges_bounded, lemma_edges_push, walkable_route, NodeID, NodeType, RouteNode,
};
use crate::service::{Service, VNF};
use std::collections::HashMap;

verus! {

broadcast use vstd::std_specs::hash::group_hash_axioms;

/// The exec values equal the spec values, one for one.
pub open spec fn same_nodes(v: Seq<usize>, s: Seq<int>) -> bool {
    &&& v.len() == s.len()
    &&& forall|i: int| 0 <= i < v.len() ==> v[i] == s[i]
}

/// The layer of a component: 0 VMs, 1 servers, 2 edge, 3 aggregation, 4 core switches.
pub open spec fn layer_of(ft: FatTree, node: int) -> int {
    if node < ft.spec_vms() {
        0
    } else if node < ft.spec_vms() + ft.spec_servers() {
        1
    } else if node < ft.spec_vms() + ft.spec_servers() + ft.spec_edges() {
        2
    } else if node < ft.spec_vms() + ft.spec_servers() + ft.spec_edges() + ft.spec_agg() {
        3
    } else {
        4
    }
}

/// From a VM: nothing if it is the destination, else up to its server.
pub open spec fn step_vm(ft: FatTree, node: int, dest: int) -> Seq<int> {
    if node == dest {
        Seq::empty()
    } else {
        seq![node / (ft.vms_per_server as int) + ft.spec_vms()]
    }
}

/// From a server: down to the destination VM if it is hosted here, else up to the edge switch.
pub open spec fn step_server(ft: FatTree, node: int, dest: int) -> Seq<int> {
    let p = ft.vms_per_server as int;
    let h = (ft.num_ports / 2) as int;
    let sid = node - ft.spec_vms();
    if sid * p <= dest < (sid + 1) * p {
        seq![dest]
    } else {
        seq![sid / h + ft.spec_vms() + ft.spec_servers()]
    }
}

/// From an edge switch: down to the destination's server if it is below, else up to every
/// aggregation switch of the pod.
pub open spec fn step_edge(ft: FatTree, node: int, dest: int) -> Seq<int> {
    let p = ft.vms_per_server as int;
    let h = (ft.num_ports / 2) as int;
    let eid = node - ft.spec_servers() - ft.spec_vms();
    let u = h * p;
    if eid * u <= dest < (eid + 1) * u {
        seq![dest / p + ft.spec_vms()]
    } else {
        Seq::new(h as nat, |i: int| (eid / h) * h + i + ft.spec_edges() + ft.spec_servers() + ft.spec_vms())
    }
}

/// From an aggregation switch: down to the destination's edge switch if it is in this pod, else
/// up to the core switches it connects to.
pub open spec fn step_agg(ft: FatTree, node: int, dest: int) -> Seq<int> {
    let p = ft.vms_per_server as int;
    let h = (ft.num_ports / 2) as int;
    let aid = node - ft.spec_edges() - ft.spec_servers() - ft.spec_vms();
    let pod = aid / h;
    let u = h * h * p;
    if pod * u <= dest < (pod + 1) * u {
        seq![dest / (h * p) + ft.spec_servers() + ft.spec_vms()]
    } else {
        Seq::new(
            h as nat,
            |i: int| aid % h + i * h + ft.spec_agg() + ft.spec_edges() + ft.spec_servers() + ft.spec_vms(),
        )
    }
}

/// From a core switch: down to the aggregation switch of the destination's pod.
pub open spec fn step_core(ft: FatTree, node: int, dest: int) -> Seq<int> {
    let p = ft.vms_per_server as int;
    let h = (ft.num_ports / 2) as int;
    let cid = node - ft.spec_agg() - ft.spec_edges() - ft.spec_servers() - ft.spec_vms();
    let pod = dest / (h * h * p);
    seq![pod * h + cid % h + ft.spec_edges() + ft.spec_servers() + ft.spec_vms()]
}

/// The next components on the shortest paths from `node` towards the VM `dest`.
pub open spec fn step_spec(ft: FatTree, node: int, dest: int) -> Seq<int> {
    let l = layer_of(ft, node);
    if l == 0 {
        step_vm(ft, node, dest)
    } else if l == 1 {
        step_server(ft, node, dest)
    } else if l == 2 {
        step_edge(ft, node, dest)
    } else if l == 3 {
        step_agg(ft, node, dest)
    } else {
        step_core(ft, node, dest)
    }
}

/// What `next_step` may be asked: a node of a well-formed tree, towards one of its VMs.
pub open spec fn step_args(ft: FatTree, node: int, dest: int) -> bool {
    &&& ft.well_formed()
    &&& 0 <= node < ft.spec_all()
    &&& 0 <= dest < ft.spec_vms()
}

proof fn lemma_div_bound(x: int, d: int, q: int)
    requires
        0 <= x < q * d,
        d > 0,
    ensures
        x / d < q,
        0 <= x / d,
{
    assert(x / d < q) by (nonlinear_arith) requires 0 <= x < q * d, d > 0;
    assert(0 <= x / d) by (nonlinear_arith) requires 0 <= x, d > 0;
}

/// The shape facts that all the steps rely on.
proof fn lemma_step_shape(ft: FatTree, dest: int)
    requires
        ft.well_formed(),
        0 <= dest < ft.spec_vms(),
    ensures
        ft.num_ports / 2 > 0,
        ft.vms_per_server > 0,
        ft.spec_vms() == ft.spec_servers() * ft.vms_per_server,
        ft.spec_servers() == 2 * (ft.num_ports / 2) * (ft.num_ports / 2) * (ft.num_ports / 2),
        ft.spec_agg() == 2 * (ft.num_ports / 2) * (ft.num_ports / 2),
        ft.spec_edges() == 2 * (ft.num_ports / 2) * (ft.num_ports / 2),
        ft.spec_core() == (ft.num_ports / 2) * (ft.num_ports / 2),
        ft.spec_all() <= usize::MAX,
{
    ft.lemma_even_shape();
    ft.lemma_parts_bounded();
    let h = (ft.num_ports / 2) as int;
    let p = ft.vms_per_server as int;
    let s = ft.spec_servers();
    if h == 0 {
        assert(s == 0) by (nonlinear_arith) requires s == 2 * h * h * h, h == 0;
        assert(ft.spec_vms() == 0);
    }
    if p == 0 {
        assert(ft.spec_vms() == 0) by (nonlinear_arith) requires ft.spec_vms() == s * p, p == 0;
    }
}

/// Every next step is a component of the tree, and no component comes twice.
pub proof fn lemma_step_in_tree(ft: FatTree, node: int, dest: int)
    requires
        step_args(ft, node, dest),
    ensures
        forall|i: int| 0 <= i < step_spec(ft, node, dest).len() ==> 0 <= #[trigger] step_spec(ft, node, dest)[i]
            < ft.spec_all(),
        step_spec(ft, node, dest).no_duplicates(),
{
    lemma_step_shape(ft, dest);
    let h = (ft.num_ports / 2) as int;
    let p = ft.vms_per_server as int;
    let v = ft.spec_vms();
    let s = ft.spec_servers();
    let e = ft.spec_edges();
    let a = ft.spec_agg();
    let c = ft.spec_core();
    let st = step_spec(ft, node, dest);
    assert(v == s * p);
    assert(s == 2 * h * h * h);
    assert(e == 2 * h * h);
    assert(c == h * h);
    let l = layer_of(ft, node);
    if l == 0 {
        lemma_div_bound(node, p, s);
    } else if l == 1 {
        let sid = node - v;
        assert(sid < (2 * h * h) * h) by (nonlinear_arith) requires sid < s, s == 2 * h * h * h;
        lemma_div_bound(sid, h, 2 * h * h);
    } else if l == 2 {
        let eid = node - s - v;
        let u = h * p;
        if eid * u <= dest < (eid + 1) * u {
            assert(dest < s * p);
            lemma_div_bound(dest, p, s);
        } else {
            assert((eid / h) * h <= eid) by (nonlinear_arith) requires h > 0, eid >= 0;
            assert(0 <= (eid / h) * h) by (nonlinear_arith) requires h > 0, eid >= 0;
            assert(h <= c) by (nonlinear_arith) requires c == h * h, h > 0;
            assert forall|i: int, j: int| 0 <= i < st.len() && 0 <= j < st.len() && i != j implies st[i] != st[j] by {
            }
        }
    } else if l == 3 {
        let aid = node - e - s - v;
        let pod = aid / h;
        let u = h * h * p;
        if pod * u <= dest < (pod + 1) * u {
            assert(dest < (2 * h * h) * (h * p)) by (nonlinear_arith)
                requires dest < v, v == s * p, s == 2 * h * h * h;
            assert(0 < h * p) by (nonlinear_arith) requires h > 0, p > 0;
            lemma_div_bound(dest, h * p, 2 * h * h);
        } else {
            assert forall|i: int| 0 <= i < h implies 0 <= #[trigger] st[i] < ft.spec_all() by {
                assert(st[i] == aid % h + i * h + a + e + s + v);
                assert(aid % h + i * h < h * h) by (nonlinear_arith) requires 0 <= i < h, h > 0, 0 <= aid % h < h;
                assert(0 <= i * h) by (nonlinear_arith) requires 0 <= i, h > 0;
            }
            assert forall|i: int, j: int| 0 <= i < st.len() && 0 <= j < st.len() && i != j implies st[i] != st[j] by {
                assert(i * h != j * h) by (nonlinear_arith) requires i != j, h > 0;
            }
        }
    } else {
        assert(0 < h * h * p) by (nonlinear_arith) requires h > 0, p > 0;
        assert(dest < (2 * h) * (h * h * p)) by (nonlinear_arith) requires dest < v, v == s * p, s == 2 * h * h * h;
        lemma_div_bound(dest, h * h * p, 2 * h);
        let cid = node - a - e - s - v;
        assert((dest / (h * h * p)) * h + cid % h < 2 * h * h) by (nonlinear_arith)
            requires dest / (h * h * p) < 2 * h, h > 0, 0 <= cid % h < h;
        assert(0 <= (dest / (h * h * p)) * h) by (nonlinear_arith) requires dest / (h * h * p) >= 0, h > 0;
    }
}

/// The number of hops from a component of the tree to the VM `dest` along a shortest path:
/// through the lowest switch layer that both sit under.
pub open spec fn hops(ft: FatTree, node: int, dest: int) -> int {
    let p = ft.vms_per_server as int;
    let h = (ft.num_ports / 2) as int;
    let v = ft.spec_vms();
    let s = ft.spec_servers();
    let e = ft.spec_edges();
    let a = ft.spec_agg();
    let l = layer_of(ft, node);
    if l == 0 {
        if node == dest {
            0
        } else if node / p == dest / p {
            2
        } else if node / (h * p) == dest / (h * p) {
            4
        } else if node / (h * h * p) == dest / (h * h * p) {
            6
        } else {
            8
        }
    } else if l == 1 {
        let sid = node - v;
        if sid == dest / p {
            1
        } else if sid / h == dest / (h * p) {
            3
        } else if sid / (h * h) == dest / (h * h * p) {
            5
        } else {
            7
        }
    } else if l == 2 {
        let eid = node - s - v;
        if eid == dest / (h * p) {
            2
        } else if eid / h == dest / (h * h * p) {
            4
        } else {
            6
        }
    } else if l == 3 {
        let aid = node - e - s - v;
        if aid / h == dest / (h * h * p) {
            3
        } else {
            5
        }
    } else {
        4
    }
}

proof fn lemma_in_block(x: int, b: int, u: int)
    requires
        0 <= x,
        0 < u,
    ensures
        (b * u <= x < (b + 1) * u) <==> x / u == b,
{
    assert((b * u <= x < (b + 1) * u) ==> x / u == b) by (nonlinear_arith) requires 0 <= x, 0 < u;
    assert(x / u == b ==> (b * u <= x < (b + 1) * u)) by (nonlinear_arith) requires 0 <= x, 0 < u;
}

proof fn lemma_div_twice(x: int, c: int, d: int)
    requires
        0 <= x,
        0 < c,
        0 < d,
    ensures
        (x / c) / d == x / (d * c),
        0 <= x / c,
{
    vstd::arithmetic::div_mod::lemma_div_denominator(x, c, d);
    assert(c * d == d * c) by (nonlinear_arith);
    assert(0 <= x / c) by (nonlinear_arith) requires 0 <= x, 0 < c;
}

proof fn lemma_div_offset(q: int, r: int, d: int)
    requires
        0 < d,
        0 <= r < d,
    ensures
        (q * d + r) / d == q,
{
    assert((q * d + r) / d == q) by (nonlinear_arith) requires 0 < d, 0 <= r < d;
}

/// The next steps from a component come in increasing order of component number, so none comes
/// twice.
pub proof fn lemma_steps_increasing(ft: FatTree, node: int, dest: int)
    requires
        step_args(ft, node, dest),
    ensures
        forall|i: int, j: int|
            0 <= i < j < step_spec(ft, node, dest).len() ==> #[trigger] step_spec(ft, node, dest)[i]
                < #[trigger] step_spec(ft, node, dest)[j],
{
    lemma_step_shape(ft, dest);
    let h = (ft.num_ports / 2) as int;
    let st = step_spec(ft, node, dest);
    assert forall|i: int, j: int| 0 <= i < j < st.len() implies #[trigger] st[i] < #[trigger] st[j] by {
        if layer_of(ft, node) == 3 {
            assert(i * h < j * h) by (nonlinear_arith) requires 0 <= i < j, h > 0;
        }
    }
}

/// Every next step from a component towards the VM `dest` is one hop closer to it, and there is
/// a next step exactly when the component is not `dest` itself: following `next_step` from any
/// component reaches the destination along shortest paths.
pub proof fn lemma_steps_approach(ft: FatTree, node: int, dest: int)
    requires
        step_args(ft, node, dest),
    ensures
        forall|i: int|
            0 <= i < step_spec(ft, node, dest).len() ==> #[trigger] hops(ft, step_spec(ft, node, dest)[i], dest) + 1
                == hops(ft, node, dest),
        step_spec(ft, node, dest).len() == 0 <==> node == dest,
        hops(ft, node, dest) == 0 <==> node == dest,
{
    lemma_step_shape(ft, dest);
    lemma_step_in_tree(ft, node, dest);
    let h = (ft.num_ports / 2) as int;
    let p = ft.vms_per_server as int;
    let v = ft.spec_vms();
    let s = ft.spec_servers();
    let e = ft.spec_edges();
    let a = ft.spec_agg();
    let c = ft.spec_core();
    let st = step_spec(ft, node, dest);
    assert(0 < h * p) by (nonlinear_arith) requires h > 0, p > 0;
    assert(0 < h * h) by (nonlinear_arith) requires h > 0;
    assert(0 < h * h * p) by (nonlinear_arith) requires h > 0, p > 0;
    assert(h * h * p == h * (h * p)) by (nonlinear_arith);
    assert(h * h * p == (h * h) * p) by (nonlinear_arith);
    // the blocks of the destination: its server, edge switch and pod
    lemma_div_twice(dest, p, h);
    lemma_div_twice(dest, h * p, h);
    let l = layer_of(ft, node);
    if l == 0 {
        if node != dest {
            let srv = node / p;
            lemma_div_bound(node, p, s);
            assert(st[0] == srv + v);
            assert(layer_of(ft, srv + v) == 1);
            lemma_div_twice(node, p, h);
            lemma_div_twice(srv, h, h);
            lemma_div_twice(node, h * p, h);
            assert(hops(ft, st[0], dest) + 1 == hops(ft, node, dest));
        }
    } else if l == 1 {
        let sid = node - v;
        lemma_in_block(dest, sid, p);
        if sid * p <= dest < (sid + 1) * p {
            assert(st[0] == dest);
        } else {
            let eid = sid / h;
            assert(sid < (2 * h * h) * h) by (nonlinear_arith) requires sid < s, s == 2 * h * h * h;
            lemma_div_bound(sid, h, 2 * h * h);
            assert(st[0] == eid + v + s);
            assert(layer_of(ft, st[0]) == 2);
            lemma_div_twice(sid, h, h);
            assert(hops(ft, st[0], dest) + 1 == hops(ft, node, dest));
        }
    } else if l == 2 {
        let eid = node - s - v;
        let u = h * p;
        lemma_in_block(dest, eid, u);
        if eid * u <= dest < (eid + 1) * u {
            let srv = dest / p;
            lemma_div_bound(dest, p, s);
            assert(st[0] == srv + v);
            assert(layer_of(ft, st[0]) == 1);
            assert(hops(ft, st[0], dest) == 1);
        } else {
            assert forall|i: int| 0 <= i < st.len() implies #[trigger] hops(ft, st[i], dest) + 1 == hops(ft, node, dest) by {
                let aid = (eid / h) * h + i;
                assert(st[i] == aid + e + s + v);
                assert((eid / h) * h <= eid) by (nonlinear_arith) requires h > 0, eid >= 0;
                assert(0 <= (eid / h) * h) by (nonlinear_arith) requires h > 0, eid >= 0;
                assert(eid < (2 * h) * h) by (nonlinear_arith) requires eid < e, e == 2 * h * h;
                lemma_div_bound(eid, h, 2 * h);
                assert(aid < 2 * h * h) by (nonlinear_arith) requires aid == (eid / h) * h + i, eid / h < 2 * h, 0 <= i < h, h > 0;
                assert(layer_of(ft, st[i]) == 3);
                lemma_div_offset(eid / h, i, h);
            }
        }
    } else if l == 3 {
        let aid = node - e - s - v;
        let pod = aid / h;
        let u = h * h * p;
        lemma_in_block(dest, pod, u);
        if pod * u <= dest < (pod + 1) * u {
            let eid = dest / (h * p);
            assert(dest < (2 * h * h) * (h * p)) by (nonlinear_arith)
                requires dest < v, v == s * p, s == 2 * h * h * h;
            lemma_div_bound(dest, h * p, 2 * h * h);
            assert(st[0] == eid + s + v);
            assert(layer_of(ft, st[0]) == 2);
            assert(hops(ft, st[0], dest) == 2);
        } else {
            assert forall|i: int| 0 <= i < st.len() implies #[trigger] hops(ft, st[i], dest) + 1 == hops(ft, node, dest) by {
                assert(st[i] == aid % h + i * h + a + e + s + v);
                assert(aid % h + i * h < h * h) by (nonlinear_arith) requires 0 <= i < h, h > 0, 0 <= aid % h < h;
                assert(0 <= aid % h + i * h) by (nonlinear_arith) requires 0 <= i, h > 0, 0 <= aid % h;
                assert(layer_of(ft, st[i]) == 4);
            }
        }
    } else {
        let cid = node - a - e - s - v;
        let pod = dest / (h * h * p);
        assert(dest < (2 * h) * (h * h * p)) by (nonlinear_arith) requires dest < v, v == s * p, s == 2 * h * h * h;
        lemma_div_bound(dest, h * h * p, 2 * h);
        assert(pod * h + cid % h < 2 * h * h) by (nonlinear_arith) requires pod < 2 * h, h > 0, 0 <= cid % h < h;
        assert(0 <= pod * h) by (nonlinear_arith) requires pod >= 0, h > 0;
        assert(st[0] == pod * h + cid % h + e + s + v);
        assert(layer_of(ft, st[0]) == 3);
        lemma_div_offset(pod, cid % h, h);
        assert(hops(ft, st[0], dest) == 3);
    }
}

fn next_step_vm(node: usize, destination: usize, ft: &FatTree) -> (res: Vec<usize>)
    requires
        step_args(*ft, node as int, destination as int),
        layer_of(*ft, node as int) == 0,
    ensures
        same_nodes(res@, step_vm(*ft, node as int, destination as int)),
{
    proof {
        lemma_step_shape(*ft, destination as int);
        lemma_div_bound(node as int, ft.vms_per_server as int, ft.spec_servers());
    }
    if node == destination {
        return Vec::new();
    }
    let server_pos = node / ft.vms_per_server;
    let offset = ft.num_vms();
    let mut res = Vec::new();
    res.push(server_pos + offset);
    res
}

fn next_step_server(node: usize, destination: usize, ft: &FatTree) -> (res: Vec<usize>)
    requires
        step_args(*ft, node as int, destination as int),
        layer_of(*ft, node as int) == 1,
    ensures
        same_nodes(res@, step_server(*ft, node as int, destination as int)),
{
    proof {
        lemma_step_shape(*ft, destination as int);
    }
    let server_id = node - ft.num_vms();
    let p = ft.vms_per_server;
    let ghost s = ft.spec_servers();
    let ghost h = (ft.num_ports / 2) as int;
    proof {
        assert((server_id + 1) * p <= s * p) by (nonlinear_arith)
            requires server_id < s, p > 0;
        assert(server_id * p <= (server_id + 1) * p) by (nonlinear_arith) requires p > 0;
        lemma_div_bound(server_id as int, h, 2 * h * h);
        assert(server_id < (2 * h * h) * h) by (nonlinear_arith) requires server_id < s, s == 2 * h * h * h;
    }
    let max_vm_id = (server_id + 1) * p;
    let min_vm_id = server_id * p;
    let mut res = Vec::new();
    if destination >= min_vm_id && destination < max_vm_id {
        res.push(destination);
    } else {
        let offset = ft.num_vms() + ft.num_servers();
        let parent_edge = server_id / (ft.num_ports / 2);
        res.push(parent_edge + offset);
    }
    res
}

fn next_step_edge(node: usize, destination: usize, ft: &FatTree) -> (res: Vec<usize>)
    requires
        step_args(*ft, node as int, destination as int),
        layer_of(*ft, node as int) == 2,
    ensures
        same_nodes(res@, step_edge(*ft, node as int, destination as int)),
{
    proof {
        lemma_step_shape(*ft, destination as int);
    }
    let edge_id = node - ft.num_servers() - ft.num_vms();
    let half_k = ft.num_ports / 2;
    let p = ft.vms_per_server;
    let ghost h = half_k as int;
    let ghost e = ft.spec_edges();
    proof {
        assert((edge_id + 1) * (h * p) <= ft.spec_vms()) by (nonlinear_arith)
            requires edge_id < e, e == 2 * h * h, ft.spec_vms() == ft.spec_servers() * p,
                ft.spec_servers() == 2 * h * h * h, h > 0, p > 0;
        assert(edge_id * (h * p) <= (edge_id + 1) * (h * p)) by (nonlinear_arith) requires h > 0, p > 0;
        assert(0 < h * p) by (nonlinear_arith) requires h > 0, p > 0;
        assert(h * p <= ft.spec_vms()) by (nonlinear_arith)
            requires ft.spec_vms() == ft.spec_servers() * p, ft.spec_servers() == 2 * h * h * h, h > 0, p > 0;
        assert(h <= ft.spec_core()) by (nonlinear_arith) requires ft.spec_core() == h * h, h > 0;
        lemma_div_bound(destination as int, p as int, ft.spec_servers());
        assert((edge_id as int) / h * h <= edge_id) by (nonlinear_arith) requires h > 0, edge_id >= 0;
        assert(0 <= (edge_id as int) / h * h) by (nonlinear_arith) requires h > 0, edge_id >= 0;
    }
    // An edge switch has k/2 servers under it
    let vms_under_edge = half_k * p;
    let max_vm_id = (edge_id + 1) * vms_under_edge;
    let min_vm_id = edge_id * vms_under_edge;
    let mut res = Vec::new();
    if destination >= min_vm_id && destination < max_vm_id {
        let offset = ft.num_vms();
        res.push((destination / p) + offset);
    } else {
        let offset = ft.num_edges() + ft.num_servers() + ft.num_vms();
        let base_id = (edge_id / half_k) * half_k;
        let mut i: usize = 0;
        while i < half_k
            invariant
                i <= half_k,
                half_k == h,
                h > 0,
                base_id == ((edge_id as int) / h) * h,
                base_id <= edge_id,
                edge_id < e,
                offset == e + ft.spec_servers() + ft.spec_vms(),
                offset + e + h <= usize::MAX,
                res@.len() == i,
                forall|j: int| 0 <= j < i ==> res@[j] == base_id + j + offset,
            decreases half_k - i,
        {
            res.push(base_id + i + offset);
            i += 1;
        }
    }
    res
}

fn next_step_agg(node: usize, destination: usize, ft: &FatTree) -> (res: Vec<usize>)
    requires
        step_args(*ft, node as int, destination as int),
        layer_of(*ft, node as int) == 3,
    ensures
        same_nodes(res@, step_agg(*ft, node as int, destination as int)),
{
    proof {
        lemma_step_shape(*ft, destination as int);
    }
    let agg_id = node - ft.num_edges() - ft.num_servers() - ft.num_vms();
    let half_k = ft.num_ports / 2;
    let p = ft.vms_per_server;
    let ghost h = half_k as int;
    let ghost a = ft.spec_agg();
    proof {
        lemma_div_bound(agg_id as int, h, 2 * h);
        assert(agg_id < (2 * h) * h) by (nonlinear_arith) requires agg_id < a, a == 2 * h * h;
        assert(((agg_id as int) / h + 1) * (h * h * p) <= ft.spec_vms()) by (nonlinear_arith)
            requires (agg_id as int) / h < 2 * h, ft.spec_vms() == ft.spec_servers() * p,
                ft.spec_servers() == 2 * h * h * h, h > 0, p > 0;
        assert(((agg_id as int) / h) * (h * h * p) <= ((agg_id as int) / h + 1) * (h * h * p)) by (nonlinear_arith)
            requires h > 0, p > 0;
        assert(0 < h * p) by (nonlinear_arith) requires h > 0, p > 0;
        assert(h * p <= h * h * p) by (nonlinear_arith) requires h > 0, p > 0;
        assert(h * h * p <= ft.spec_vms()) by (nonlinear_arith)
            requires ft.spec_vms() == ft.spec_servers() * p, ft.spec_servers() == 2 * h * h * h, h > 0, p > 0;
        assert(destination < (2 * h * h) * (h * p)) by (nonlinear_arith)
            requires destination < ft.spec_vms(), ft.spec_vms() == ft.spec_servers() * p,
                ft.spec_servers() == 2 * h * h * h;
        lemma_div_bound(destination as int, h * p, 2 * h * h);
        assert((h - 1) * h + h <= h * h) by (nonlinear_arith) requires h > 0;
    }
    // An aggregation switch has k/2 edge switches under it
    let pod_id = agg_id / half_k;
    let vms_under_agg = half_k * half_k * p;
    let max_vm_id = (pod_id + 1) * vms_under_agg;
    let min_vm_id = pod_id * vms_under_agg;
    let mut res = Vec::new();
    if destination >= min_vm_id && destination < max_vm_id {
        let offset = ft.num_servers() + ft.num_vms();
        res.push((destination / (half_k * p)) + offset);
    } else {
        let offset = ft.num_agg() + ft.num_edges() + ft.num_servers() + ft.num_vms();
        let first_core = agg_id % half_k;
        let mut i: usize = 0;
        while i < half_k
            invariant
                i <= half_k,
                half_k == h,
                h > 0,
                first_core == (agg_id as int) % h,
                (h - 1) * h + h <= h * h,
                offset == a + a + ft.spec_servers() + ft.spec_vms(),
                offset + h * h <= usize::MAX,
                res@.len() == i,
                forall|j: int| 0 <= j < i ==> res@[j] == first_core + j * h + offset,
            decreases half_k - i,
        {
            proof {
                assert(i * h <= (h - 1) * h) by (nonlinear_arith) requires i < h, h > 0;
            }
            res.push(first_core + i * half_k + offset);
            i += 1;
        }
    }
    res
}

fn next_step_core(node: usize, destination: usize, ft: &FatTree) -> (res: Vec<usize>)
    requires
        step_args(*ft, node as int, destination as int),
        layer_of(*ft, node as int) == 4,
    ensures
        same_nodes(res@, step_core(*ft, node as int, destination as int)),
{
    proof {
        lemma_step_shape(*ft, destination as int);
    }
    let core_id = node - ft.num_agg() - ft.num_edges() - ft.num_servers() - ft.num_vms();
    let half_k = ft.num_ports / 2;
    let p = ft.vms_per_server;
    let ghost h = half_k as int;
    proof {
        assert(0 < h * h * p) by (nonlinear_arith) requires h > 0, p > 0;
        assert(h * h * p <= ft.spec_vms()) by (nonlinear_arith)
            requires ft.spec_vms() == ft.spec_servers() * p, ft.spec_servers() == 2 * h * h * h, h > 0, p > 0;
        assert(destination < (2 * h) * (h * h * p)) by (nonlinear_arith)
            requires destination < ft.spec_vms(), ft.spec_vms() == ft.spec_servers() * p,
                ft.spec_servers() == 2 * h * h * h;
        lemma_div_bound(destination as int, h * h * p, 2 * h);
        assert(((destination as int) / (h * h * p)) * h + h <= 2 * h * h) by (nonlinear_arith)
            requires (destination as int) / (h * h * p) < 2 * h, h > 0;
    }
    let pod_id = destination / (half_k * half_k * p);
    let offset = ft.num_edges() + ft.num_servers() + ft.num_vms();
    let mut res = Vec::new();
    res.push((pod_id * half_k) + (core_id % half_k) + offset);
    res
}

/// The next components on the shortest paths from `node` towards the VM `destination`.
pub fn next_step(node: usize, destination: usize, fat_tree: &FatTree) -> (res: Vec<usize>)
    requires
        step_args(*fat_tree, node as int, destination as int),
    ensures
        same_nodes(res@, step_spec(*fat_tree, node as int, destination as int)),
{
    proof {
        fat_tree.lemma_parts_bounded();
    }
    // Find the layer of the current node
    let mut layer: usize = 0;
    let mut sum: usize = 0;
    loop
        invariant
            step_args(*fat_tree, node as int, destination as int),
            layer <= 4,
            sum <= node,
            layer == 0 ==> sum == 0,
            layer == 1 ==> sum == fat_tree.spec_vms(),
            layer == 2 ==> sum == fat_tree.spec_vms() + fat_tree.spec_servers(),
            layer == 3 ==> sum == fat_tree.spec_vms() + fat_tree.spec_servers() + fat_tree.spec_edges(),
            layer == 4 ==> sum == fat_tree.spec_vms() + fat_tree.spec_servers() + fat_tree.spec_edges()
                + fat_tree.spec_agg(),
        ensures
            layer == layer_of(*fat_tree, node as int),
        decreases 4 - layer,
    {
        proof {
            fat_tree.lemma_parts_bounded();
        }
        let num_components = fat_tree.components_at_layer(layer);
        if sum + num_components > node {
            break;
        }
        layer = layer + 1;
        sum = sum + num_components;
    }
    match layer {
        0 => next_step_vm(node, destination, fat_tree),
        1 => next_step_server(node, destination, fat_tree),
        2 => next_step_edge(node, destination, fat_tree),
        3 => next_step_agg(node, destination, fat_tree),
        _ => next_step_core(node, destination, fat_tree),
    }
}

/// Position `p` of the placement holds the VNF at `stage` of service `service_id`.
pub open spec fn holds_stage(solution: Seq<Option<VNF>>, p: int, service_id: usize, stage: usize) -> bool {
    &&& 0 <= p < solution.len()
    &&& solution[p] is Some
    &&& solution[p]->0.service_id == service_id
    &&& solution[p]->0.stage == stage
}

/// How far position `p` lies from `start`.
pub open spec fn dist(p: int, start: int) -> int {
    if p < start {
        start - p
    } else {
        p - start
    }
}

/// `p` is the nearest position to `start` holding the stage; of two equally near, the lower.
pub open spec fn is_nearest(solution: Seq<Option<VNF>>, start: int, service_id: usize, stage: usize, p: int) -> bool {
    &&& holds_stage(solution, p, service_id, stage)
    &&& forall|q: int|
        #[trigger] holds_stage(solution, q, service_id, stage) ==> dist(p, start) < dist(q, start) || (
        dist(p, start) == dist(q, start) && p <= q)
}

/// The nearest position to `start` that holds the stage, if any does.
pub open spec fn nearest(solution: Seq<Option<VNF>>, start: int, service_id: usize, stage: usize) -> Option<int> {
    if exists|p: int| is_nearest(solution, start, service_id, stage, p) {
        Some(choose|p: int| is_nearest(solution, start, service_id, stage, p))
    } else {
        None
    }
}

proof fn lemma_nearest_unique(solution: Seq<Option<VNF>>, start: int, service_id: usize, stage: usize, p: int)
    requires
        is_nearest(solution, start, service_id, stage, p),
    ensures
        nearest(solution, start, service_id, stage) == Some(p),
{
    let q = choose|q: int| is_nearest(solution, start, service_id, stage, q);
    assert(holds_stage(solution, q, service_id, stage));
    assert(holds_stage(solution, p, service_id, stage));
}

fn find_next_nearest(solution: &Vec<Option<VNF>>, start: usize, service_id: usize, stage: usize) -> (res: Option<usize>)
    requires
        start < solution.len(),
    ensures
        match res {
            Some(p) => nearest(solution@, start as int, service_id, stage) == Some(p as int),
            None => nearest(solution@, start as int, service_id, stage) is None,
        },
{
    let len = solution.len();
    let mut i: usize = 0;
    while i < len
        invariant
            len == solution@.len(),
            start < len,
            i <= len,
            forall|q: int| #[trigger] holds_stage(solution@, q, service_id, stage) ==> dist(q, start as int) >= i,
        decreases len - i,
    {
        if i <= start {
            let pos = start - i;
            if let Some(vnf) = solution[pos] {
                if vnf.service_id == service_id && vnf.stage == stage {
                    proof {
                        assert(holds_stage(solution@, pos as int, service_id, stage));
                        lemma_nearest_unique(solution@, start as int, service_id, stage, pos as int);
                    }
                    return Some(pos);
                }
            }
        }
        if i < len - start {
            let pos = start + i;
            if let Some(vnf) = solution[pos] {
                if vnf.service_id == service_id && vnf.stage == stage {
                    proof {
                        assert(holds_stage(solution@, pos as int, service_id, stage));
                        assert forall|q: int| #[trigger] holds_stage(solution@, q, service_id, stage) implies
                            dist(pos as int, start as int) < dist(q, start as int) || (dist(pos as int, start as int)
                            == dist(q, start as int) && pos <= q) by {
                            if dist(q, start as int) == i && q < pos {
                                assert(q == start - i);
                            }
                        }
                        lemma_nearest_unique(solution@, start as int, service_id, stage, pos as int);
                    }
                    return Some(pos);
                }
            }
        }
        proof {
            assert forall|q: int| #[trigger] holds_stage(solution@, q, service_id, stage) implies dist(q, start as int)
                >= i + 1 by {
                if dist(q, start as int) == i {
                    if q < start {
                        assert(q == start - i);
                    } else {
                        assert(q == start + i);
                    }
                }
            }
        }
        i += 1;
    }
    proof {
        if exists|p: int| is_nearest(solution@, start as int, service_id, stage, p) {
            let p = choose|p: int| is_nearest(solution@, start as int, service_id, stage, p);
            assert(holds_stage(solution@, p, service_id, stage));
        }
    }
    None
}

/// Every stage of the service has a nearest position to `start`.
pub open spec fn chain_found(solution: Seq<Option<VNF>>, start: int, service_id: usize, len: nat) -> bool {
    forall|j: int| 0 <= j < len ==> #[trigger] nearest(solution, start, service_id, j as usize) is Some
}

/// The positions of the nearest instances of each stage of the service, from `start`.
pub open spec fn chain_from(solution: Seq<Option<VNF>>, start: int, service_id: usize, len: nat) -> Seq<usize> {
    Seq::new(len, |j: int| nearest(solution, start, service_id, j as usize)->0 as usize)
}

/// The service chains read off a placement, from its first `m` positions: for each first-stage VNF,
/// in order of position, the nearest instance of every stage of its service, when all are placed.
pub open spec fn sequences_upto(solution: Seq<Option<VNF>>, services: Seq<Service>, m: int) -> Seq<(usize, Seq<usize>)>
    decreases m,
{
    if m <= 0 {
        Seq::empty()
    } else {
        let prev = sequences_upto(solution, services, m - 1);
        match solution[m - 1] {
            Some(v) => if v.stage == 0 && chain_found(
                solution,
                m - 1,
                v.service_id,
                services[v.service_id as int].vnfs@.len(),
            ) {
                prev.push(
                    (v.service_id, chain_from(solution, m - 1, v.service_id, services[v.service_id as int].vnfs@.len())),
                )
            } else {
                prev
            },
            None => prev,
        }
    }
}

/// Every first-stage VNF of the placement belongs to a known service.
pub open spec fn first_stages_known(solution: Seq<Option<VNF>>, services: Seq<Service>) -> bool {
    forall|i: int|
        0 <= i < solution.len() && #[trigger] solution[i] is Some && solution[i]->0.stage == 0
            ==> solution[i]->0.service_id < services.len()
}

/// The exec list of chains equals the spec one.
pub open spec fn same_sequences(v: Seq<(usize, Vec<usize>)>, s: Seq<(usize, Seq<usize>)>) -> bool {
    &&& v.len() == s.len()
    &&& forall|i: int| 0 <= i < v.len() ==> v[i].0 == s[i].0 && v[i].1@ == s[i].1
}

/// Every chain read off a placement belongs to a known service and is as long as its chain of
/// VNFs, and the VM at each position of the chain holds the VNF of that stage of the service.
pub proof fn lemma_sequences_hold_stages(solution: Seq<Option<VNF>>, services: Seq<Service>, m: int)
    requires
        first_stages_known(solution, services),
        0 <= m <= solution.len() <= usize::MAX,
    ensures
        forall|k: int|
            0 <= k < sequences_upto(solution, services, m).len() ==> {
                let (sid, chain) = #[trigger] sequences_upto(solution, services, m)[k];
                &&& sid < services.len()
                &&& chain.len() == services[sid as int].vnfs@.len()
                &&& forall|j: int| 0 <= j < chain.len() ==> holds_stage(solution, #[trigger] chain[j] as int, sid, j as usize)
            },
    decreases m,
{
    if m > 0 {
        lemma_sequences_hold_stages(solution, services, m - 1);
        let prev = sequences_upto(solution, services, m - 1);
        let cur = sequences_upto(solution, services, m);
        if cur.len() > prev.len() {
            let v = solution[m - 1]->0;
            let sid = v.service_id;
            let len = services[sid as int].vnfs@.len();
            assert(solution[m - 1] is Some && v.stage == 0);
            assert(cur == prev.push((sid, chain_from(solution, m - 1, sid, len))));
            let chain = chain_from(solution, m - 1, sid, len);
            assert forall|j: int| 0 <= j < chain.len() implies holds_stage(solution, #[trigger] chain[j] as int, sid, j as usize) by {
                let start = m - 1;
                let stage = j as usize;
                assert(nearest(solution, start, sid, stage) is Some);
                let p = choose|p: int| is_nearest(solution, start, sid, stage, p);
                assert(is_nearest(solution, start, sid, stage, p));
                assert(chain[j] == p as usize);
            }
            assert forall|k: int| 0 <= k < cur.len() implies {
                let (sid2, chain2) = #[trigger] cur[k];
                &&& sid2 < services.len()
                &&& chain2.len() == services[sid2 as int].vnfs@.len()
                &&& forall|j: int| 0 <= j < chain2.len() ==> holds_stage(solution, #[trigger] chain2[j] as int, sid2, j as usize)
            } by {
                if k < prev.len() {
                    assert(cur[k] == prev[k]);
                }
            }
        }
    }
}

/// The service chains of a placement: for each first-stage VNF in order of position, the
/// positions of the nearest instances of every stage of its service, when all are placed.
pub fn find_sequences(solution: &Vec<Option<VNF>>, services: &Vec<Service>) -> (routes: Vec<(usize, Vec<usize>)>)
    requires
        first_stages_known(solution@, services@),
    ensures
        same_sequences(routes@, sequences_upto(solution@, services@, solution@.len() as int)),
{
    let mut routes: Vec<(usize, Vec<usize>)> = Vec::new();
    let mut i: usize = 0;
    while i < solution.len()
        invariant
            i <= solution@.len(),
            first_stages_known(solution@, services@),
            same_sequences(routes@, sequences_upto(solution@, services@, i as int)),
        decreases solution@.len() - i,
    {
        if let Some(vnf) = solution[i] {
            if vnf.stage == 0 {
                let service_id = vnf.service_id;
                proof {
                    assert(solution@[i as int] is Some);
                }
                let service_len = services[service_id].vnfs.len();
                let mut route: Vec<usize> = Vec::with_capacity(service_len);
                let mut j: usize = 0;
                let ghost mut all_found = true;
                while j < service_len
                    invariant
                        j <= service_len,
                        i < solution@.len(),
                        route@.len() <= j,
                        all_found <==> (route@.len() == j),
                        all_found ==> forall|t: int| 0 <= t < j ==> #[trigger] nearest(solution@, i as int, service_id, t as usize)
                            == Some(route@[t] as int),
                        !all_found ==> !chain_found(solution@, i as int, service_id, service_len as nat),
                    decreases service_len - j,
                {
                    let possible_node = find_next_nearest(solution, i, service_id, j);
                    if let Some(node) = possible_node {
                        route.push(node);
                    } else {
                        proof {
                            all_found = false;
                            assert(((j as int) as usize) == j);
                            assert(!chain_found(solution@, i as int, service_id, service_len as nat)) by {
                                assert(nearest(solution@, i as int, service_id, ((j as int) as usize)) is None);
                            }
                        }
                    }
                    j += 1;
                }
                // Keep the chain when every stage was found
                if route.len() == service_len {
                    proof {
                        assert(route@ =~= chain_from(solution@, i as int, service_id, service_len as nat));
                    }
                    routes.push((service_id, route));
                }
            }
        }
        i += 1;
    }
    routes
}

/// What `find_routes` needs: a well-formed tree, a chain of at least two VMs of it, and route
/// counts that fit in their 32 bits.
pub open spec fn route_args(sequence: Seq<usize>, dc: FatTree) -> bool {
    &&& dc.well_formed()
    &&& sequence.len() >= 2
    &&& forall|i: int| 0 <= i < sequence.len() ==> #[trigger] sequence[i] < dc.spec_vms()
    &&& sequence.len() * dc.spec_all() + 2 <= u32::MAX
}

/// The shape of a route graph for a chain: it starts at the first VNF of the chain, its nodes
/// are components of the tree, each VNF node sits on the VM of its stage, successor lists have no
/// repetitions, and each node's route count is exactly the number of edges into it (plus the
/// walk's entry into the start node), which is at least one.
pub open spec fn route_graph(g: Seq<RouteNode>, sequence: Seq<usize>, dc: FatTree) -> bool {
    &&& walkable_route(g)
    &&& g[0].node_type == NodeType::VNF(0)
    &&& g[0].node_id == sequence[0]
    &&& forall|n: int| 0 <= n < g.len() ==> #[trigger] g[n].node_id < dc.spec_all()
    &&& forall|n: int|
        0 <= n < g.len() && #[trigger] g[n].node_type is VNF ==> g[n].node_type->VNF_0 < sequence.len()
            && g[n].node_id == sequence[g[n].node_type->VNF_0 as int]
    &&& forall|n: int| 0 <= n < g.len() ==> #[trigger] g[n].next_nodes@.no_duplicates()
    &&& forall|n: usize|
        n < g.len() ==> #[trigger] g[n as int].route_count == in_degree(g, n) + (if n == 0 { 1nat } else { 0nat })
    &&& forall|n: int| 0 <= n < g.len() ==> #[trigger] g[n].route_count >= 1
}

/// The stage whose VNF a route node heads for: the next one after a VNF node; for a component,
/// the stage at which the walk passes it (`comp_stage`).
pub open spec fn heading(node: RouteNode, comp_stage: int) -> int {
    match node.node_type {
        NodeType::VNF(s) => s + 1,
        NodeType::Component => comp_stage,
    }
}

/// The successor list `nexts` leads, in order, to graph nodes of the components `comps`.
pub open spec fn leads_to(g: Seq<RouteNode>, nexts: Seq<usize>, comps: Seq<int>) -> bool {
    &&& nexts.len() == comps.len()
    &&& forall|i: int| 0 <= i < nexts.len() ==> #[trigger] g[nexts[i] as int].node_id == comps[i]
}

/// The route graph follows the fat tree, given the stage `st[n]` each node heads for: a node
/// heading for a stage of the chain has as successors the next steps of the tree from its
/// component towards that stage's VM, in the order `next_step` gives them; a node past the
/// last stage has none; a successor is a component heading for the same stage, or the VNF node
/// of that stage; a component is never the VM its stage heads for (reaching that VM is reaching
/// the stage's VNF); and no two nodes of the same kind stand for the same component at the same
/// stage.
pub open spec fn shaped_by(g: Seq<RouteNode>, sequence: Seq<usize>, dc: FatTree, st: Seq<int>) -> bool {
    let len = sequence.len() as int;
    &&& st.len() == g.len()
    &&& st[0] == 1
    &&& forall|n: int| 0 <= n < g.len() ==> 1 <= #[trigger] st[n] <= len
    &&& forall|n: int| 0 <= n < g.len() && #[trigger] g[n].node_type is VNF ==> st[n] == g[n].node_type->VNF_0 + 1
    &&& forall|n: int|
        0 <= n < g.len() && #[trigger] g[n].node_type is Component ==> g[n].node_id != sequence[st[n]]
    &&& forall|n: int|
        0 <= n < g.len() && #[trigger] st[n] < len ==> leads_to(
            g,
            g[n].next_nodes@,
            step_spec(dc, g[n].node_id as int, sequence[st[n]] as int),
        )
    &&& forall|n: int| 0 <= n < g.len() && #[trigger] st[n] == len ==> g[n].next_nodes@.len() == 0
    &&& forall|n: int, k: int|
        0 <= n < g.len() && 0 <= k < g[n].next_nodes@.len() ==> {
            let m = #[trigger] g[n].next_nodes@[k] as int;
            ||| g[m].node_type is Component && st[m] == st[n]
            ||| g[m].node_type == NodeType::VNF(st[n] as usize) && st[m] == st[n] + 1
        }
    &&& forall|n1: int, n2: int|
        0 <= n1 < n2 < g.len() && #[trigger] g[n1].node_type == #[trigger] g[n2].node_type && st[n1] == st[n2]
            ==> g[n1].node_id != g[n2].node_id
}

/// The route graph of a chain follows the shortest paths of the tree, stage by stage.
pub open spec fn route_shape(g: Seq<RouteNode>, sequence: Seq<usize>, dc: FatTree) -> bool {
    exists|st: Seq<int>| shaped_by(g, sequence, dc, st)
}

/// The part of the graph construction's invariant that concerns the shape: `kst` holds the
/// stage each node was reached at, `qidx` where a node heading for a stage stands in the queue;
/// every node taken from the queue, but `busy`, has all its successors.
spec fn shape_inv(
    g: Seq<RouteNode>,
    kst: Seq<int>,
    qidx: Seq<int>,
    queue: Seq<(usize, usize)>,
    head: int,
    sequence: Seq<usize>,
    dc: FatTree,
    busy: int,
) -> bool {
    let len = sequence.len() as int;
    &&& qidx.len() == g.len()
    &&& forall|n: int| 1 <= n < g.len() ==> 1 <= #[trigger] kst[n]
    &&& forall|n: int| 1 <= n < g.len() && #[trigger] g[n].node_type is VNF ==> g[n].node_type->VNF_0 == kst[n]
    &&& forall|n: int|
        1 <= n < g.len() && #[trigger] g[n].node_type is Component ==> g[n].node_id != sequence[kst[n]]
    &&& forall|t: int|
        head <= t < queue.len() ==> #[trigger] queue[t].0 == heading(g[queue[t].1 as int], kst[queue[t].1 as int])
    &&& forall|n: int|
        0 <= n < g.len() && heading(g[n], kst[n]) < len ==> 0 <= #[trigger] qidx[n] < queue.len() && queue[qidx[n]].1
            == n
    &&& forall|n: int| 0 <= n < g.len() && #[trigger] heading(g[n], kst[n]) == len ==> g[n].next_nodes@.len() == 0
    &&& forall|n: int|
        0 <= n < g.len() && n != busy && heading(g[n], kst[n]) < len && #[trigger] qidx[n] < head ==> leads_to(
            g,
            g[n].next_nodes@,
            step_spec(dc, g[n].node_id as int, sequence[heading(g[n], kst[n])] as int),
        )
    &&& forall|n: int, k: int|
        0 <= n < g.len() && 0 <= k < g[n].next_nodes@.len() ==> kst[#[trigger] g[n].next_nodes@[k] as int] == heading(
            g[n],
            kst[n],
        )
}

/// Successor lists keep leading to the same components while nodes only gain successors or
/// route counts and new nodes are appended.
proof fn lemma_leads_to_stable(g0: Seq<RouteNode>, g: Seq<RouteNode>, nexts: Seq<usize>, comps: Seq<int>)
    requires
        leads_to(g0, nexts, comps),
        g0.len() <= g.len(),
        forall|i: int| 0 <= i < nexts.len() ==> #[trigger] nexts[i] < g0.len(),
        forall|m: int| 0 <= m < g0.len() ==> #[trigger] g[m].node_id == g0[m].node_id,
    ensures
        leads_to(g, nexts, comps),
{
    assert forall|i: int| 0 <= i < nexts.len() implies #[trigger] g[nexts[i] as int].node_id == comps[i] by {
        assert(nexts[i] < g0.len());
        assert(g0[nexts[i] as int].node_id == comps[i]);
    }
}

/// One edge added to the node being expanded, perhaps to a node appended for it, keeps the shape
/// invariant.
proof fn lemma_shape_step(
    g0: Seq<RouteNode>,
    g: Seq<RouteNode>,
    kst0: Seq<int>,
    kst: Seq<int>,
    qidx0: Seq<int>,
    qidx: Seq<int>,
    q0: Seq<(usize, usize)>,
    q: Seq<(usize, usize)>,
    head: int,
    sequence: Seq<usize>,
    dc: FatTree,
    curr: int,
    stage: int,
)
    requires
        shape_inv(g0, kst0, qidx0, q0, head, sequence, dc, curr),
        kst0.len() == g0.len(),
        g0.len() <= g.len() <= g0.len() + 1,
        kst.len() == g.len(),
        qidx.len() == g.len(),
        forall|j: int| 0 <= j < g0.len() ==> #[trigger] kst[j] == kst0[j] && qidx[j] == qidx0[j],
        q0.len() <= q.len(),
        forall|t: int| 0 <= t < q0.len() ==> #[trigger] q[t] == q0[t],
        forall|t: int| head <= t < q0.len() ==> #[trigger] q0[t].1 < g0.len(),
        forall|t: int|
            q0.len() <= t < q.len() ==> #[trigger] q[t].1 == g0.len() && q[t].0 == heading(
                g[g0.len() as int],
                kst[g0.len() as int],
            ),
        0 <= head <= q0.len(),
        0 <= curr < g0.len(),
        heading(g0[curr], kst0[curr]) == stage,
        1 <= stage < sequence.len(),
        forall|j: int|
            #![trigger g[j]]
            0 <= j < g0.len() ==> g[j].node_id == g0[j].node_id && g[j].node_type == g0[j].node_type,
        forall|j: int| 0 <= j < g0.len() && j != curr ==> #[trigger] g[j].next_nodes@ == g0[j].next_nodes@,
        g[curr].next_nodes@.len() == g0[curr].next_nodes@.len() + 1,
        g[curr].next_nodes@.drop_last() == g0[curr].next_nodes@,
        kst[g[curr].next_nodes@.last() as int] == stage,
        forall|j: int, k: int|
            0 <= j < g0.len() && 0 <= k < g0[j].next_nodes@.len() ==> #[trigger] g0[j].next_nodes@[k] < g0.len(),
        g.len() > g0.len() ==> {
            let n = g0.len() as int;
            &&& g[n].next_nodes@.len() == 0
            &&& kst[n] == stage
            &&& (g[n].node_type is VNF ==> g[n].node_type->VNF_0 == stage)
            &&& (g[n].node_type is Component ==> g[n].node_id != sequence[stage])
            &&& (heading(g[n], kst[n]) < sequence.len() ==> head <= qidx[n] < q.len() && q[qidx[n]].1 == n)
        },
    ensures
        shape_inv(g, kst, qidx, q, head, sequence, dc, curr),
{
    let len = sequence.len() as int;
    assert forall|n: int| 0 <= n < g0.len() implies #[trigger] heading(g[n], kst[n]) == heading(g0[n], kst0[n]) by {
        assert(g[n].node_type == g0[n].node_type);
        assert(kst[n] == kst0[n]);
    }
    assert forall|n: int| 1 <= n < g.len() implies 1 <= #[trigger] kst[n] by {
        if n < g0.len() {
            assert(kst[n] == kst0[n]);
        }
    }
    assert forall|n: int| 1 <= n < g.len() && #[trigger] g[n].node_type is VNF implies g[n].node_type->VNF_0 == kst[n] by {
        if n < g0.len() {
            assert(g[n].node_type == g0[n].node_type);
            assert(kst[n] == kst0[n]);
        }
    }
    assert forall|n: int| 1 <= n < g.len() && #[trigger] g[n].node_type is Component implies g[n].node_id
        != sequence[kst[n]] by {
        if n < g0.len() {
            assert(g[n].node_type == g0[n].node_type);
            assert(kst[n] == kst0[n]);
        }
    }
    assert forall|t: int| head <= t < q.len() implies #[trigger] q[t].0 == heading(
        g[q[t].1 as int],
        kst[q[t].1 as int],
    ) by {
        if t < q0.len() {
            assert(q[t] == q0[t]);
            assert(q0[t].0 == heading(g0[q0[t].1 as int], kst0[q0[t].1 as int]));
            assert(q0[t].1 < g0.len());
            assert(heading(g[q0[t].1 as int], kst[q0[t].1 as int]) == heading(g0[q0[t].1 as int], kst0[q0[t].1 as int]));
        }
    }
    assert forall|n: int| 0 <= n < g.len() && heading(g[n], kst[n]) < len implies 0 <= #[trigger] qidx[n] < q.len()
        && q[qidx[n]].1 == n by {
        if n < g0.len() {
            assert(heading(g[n], kst[n]) == heading(g0[n], kst0[n]));
            assert(qidx[n] == qidx0[n]);
            assert(0 <= qidx0[n] < q0.len() && q0[qidx0[n]].1 == n);
            assert(q[qidx0[n]] == q0[qidx0[n]]);
        }
    }
    assert forall|n: int| 0 <= n < g.len() && #[trigger] heading(g[n], kst[n]) == len implies g[n].next_nodes@.len() == 0 by {
        if n < g0.len() {
            assert(heading(g[n], kst[n]) == heading(g0[n], kst0[n]));
            if n != curr {
                assert(g[n].next_nodes@ == g0[n].next_nodes@);
            }
        }
    }
    assert forall|n: int|
        0 <= n < g.len() && n != curr && heading(g[n], kst[n]) < len && #[trigger] qidx[n] < head implies leads_to(
        g,
        g[n].next_nodes@,
        step_spec(dc, g[n].node_id as int, sequence[heading(g[n], kst[n])] as int),
    ) by {
        if n < g0.len() {
            assert(heading(g[n], kst[n]) == heading(g0[n], kst0[n]));
            assert(qidx[n] == qidx0[n]);
            assert(g[n].next_nodes@ == g0[n].next_nodes@);
            assert(g[n].node_id == g0[n].node_id);
            lemma_leads_to_stable(
                g0,
                g,
                g0[n].next_nodes@,
                step_spec(dc, g0[n].node_id as int, sequence[heading(g0[n], kst0[n])] as int),
            );
        }
    }
    assert forall|n: int, k: int| 0 <= n < g.len() && 0 <= k < g[n].next_nodes@.len() implies kst[
        #[trigger] g[n].next_nodes@[k] as int] == heading(g[n], kst[n]) by {
        if n < g0.len() {
            assert(heading(g[n], kst[n]) == heading(g0[n], kst0[n]));
            if n != curr {
                assert(g[n].next_nodes@ == g0[n].next_nodes@);
                assert(g0[n].next_nodes@[k] < g0.len());
                assert(kst[g0[n].next_nodes@[k] as int] == kst0[g0[n].next_nodes@[k] as int]);
            } else if k < g0[curr].next_nodes@.len() {
                assert(g[n].next_nodes@[k] == g0[curr].next_nodes@[k]);
                assert(g0[curr].next_nodes@[k] < g0.len());
                assert(kst[g0[n].next_nodes@[k] as int] == kst0[g0[n].next_nodes@[k] as int]);
            } else {
                assert(g[n].next_nodes@[k] == g[curr].next_nodes@.last());
            }
        }
    }
}

/// The number of hops is between none and eight.
proof fn lemma_hops_range(ft: FatTree, node: int, dest: int)
    ensures
        0 <= hops(ft, node, dest) <= 8,
{
}

/// Some node of the graph is the VNF node of stage `s`.
pub open spec fn has_vnf_node(g: Seq<RouteNode>, s: int) -> bool {
    exists|n: int| 0 <= n < g.len() && g[n].node_type == NodeType::VNF(s as usize)
}

/// The chain moves to another VM at every stage.
pub open spec fn moves_each_stage(sequence: Seq<usize>) -> bool {
    forall|i: int| 0 <= i < sequence.len() - 1 ==> #[trigger] sequence[i] != sequence[i + 1]
}

/// Following the first successor from a node heading for stage `t`, away from that stage's VM,
/// leads to the VNF node of stage `t`.
proof fn lemma_reach_stage(g: Seq<RouteNode>, sequence: Seq<usize>, dc: FatTree, st: Seq<int>, n: int, t: int)
    requires
        route_args(sequence, dc),
        route_graph(g, sequence, dc),
        shaped_by(g, sequence, dc, st),
        0 <= n < g.len(),
        st[n] == t,
        1 <= t < sequence.len(),
        g[n].node_id != sequence[t],
    ensures
        exists|m: int| 0 <= m < g.len() && g[m].node_type == NodeType::VNF(t as usize),
    decreases hops(dc, g[n].node_id as int, sequence[t] as int),
{
    let node = g[n].node_id as int;
    let dest = sequence[t] as int;
    lemma_steps_approach(dc, node, dest);
    let steps = step_spec(dc, node, dest);
    assert(leads_to(g, g[n].next_nodes@, steps));
    let m = g[n].next_nodes@[0] as int;
    assert(g[m].node_id == steps[0]);
    assert(hops(dc, steps[0], dest) + 1 == hops(dc, node, dest));
    lemma_hops_range(dc, steps[0], dest);
    if g[m].node_type is Component {
        assert(st[m] == st[n]);
        lemma_reach_stage(g, sequence, dc, st, m, t);
    } else {
        assert(g[m].node_type == NodeType::VNF(t as usize));
    }
}

proof fn lemma_stages_upto(g: Seq<RouteNode>, sequence: Seq<usize>, dc: FatTree, st: Seq<int>, s: int)
    requires
        route_args(sequence, dc),
        moves_each_stage(sequence),
        route_graph(g, sequence, dc),
        shaped_by(g, sequence, dc, st),
        0 <= s < sequence.len(),
        sequence.len() <= usize::MAX,
    ensures
        exists|m: int| 0 <= m < g.len() && g[m].node_type == NodeType::VNF(s as usize),
    decreases s,
{
    if s == 0 {
        assert(g[0].node_type == NodeType::VNF(0));
    } else {
        lemma_stages_upto(g, sequence, dc, st, s - 1);
        let n = choose|m: int| 0 <= m < g.len() && g[m].node_type == NodeType::VNF((s - 1) as usize);
        assert(g[n].node_type is VNF);
        assert(st[n] == s);
        assert(g[n].node_id == sequence[s - 1]);
        assert(sequence[s - 1] != sequence[s]);
        lemma_reach_stage(g, sequence, dc, st, n, s);
    }
}

/// The route graph of a chain that moves to another VM at every stage has exactly one VNF node
/// per stage, and the VNF node of the last stage is the only node without successors.
pub proof fn lemma_route_graph_stages(sequence: Seq<usize>, dc: FatTree, g: Seq<RouteNode>)
    requires
        route_args(sequence, dc),
        moves_each_stage(sequence),
        route_graph(g, sequence, dc),
        route_shape(g, sequence, dc),
        g.len() <= usize::MAX,
    ensures
        forall|s: int| 0 <= s < sequence.len() ==> #[trigger] has_vnf_node(g, s),
        forall|n1: int, n2: int|
            0 <= n1 < n2 < g.len() && #[trigger] g[n1].node_type is VNF ==> g[n1].node_type != #[trigger] g[n2].node_type,
        forall|n: int|
            0 <= n < g.len() ==> (#[trigger] g[n].next_nodes@.len() == 0 <==> g[n].node_type == NodeType::VNF(
                (sequence.len() - 1) as usize,
            )),
{
    let st = choose|st: Seq<int>| shaped_by(g, sequence, dc, st);
    let len = sequence.len() as int;
    let a = dc.spec_all();
    dc.lemma_parts_bounded();
    assert(sequence[0] < dc.spec_vms());
    assert(len <= len * a) by (nonlinear_arith) requires a >= 1, len >= 0;
    assert forall|s: int| 0 <= s < len implies #[trigger] has_vnf_node(g, s) by {
        lemma_stages_upto(g, sequence, dc, st, s);
    }
    assert forall|n1: int, n2: int|
        0 <= n1 < n2 < g.len() && #[trigger] g[n1].node_type is VNF implies g[n1].node_type != #[trigger] g[n2].node_type by {
        if g[n1].node_type == g[n2].node_type {
            assert(st[n1] == st[n2]);
            assert(g[n1].node_id == g[n2].node_id);
        }
    }
    assert forall|n: int| 0 <= n < g.len() implies (#[trigger] g[n].next_nodes@.len() == 0 <==> g[n].node_type
        == NodeType::VNF((len - 1) as usize)) by {
        let node = g[n].node_id as int;
        if g[n].next_nodes@.len() == 0 {
            if st[n] < len {
                lemma_steps_approach(dc, node, sequence[st[n]] as int);
                assert(leads_to(g, g[n].next_nodes@, step_spec(dc, node, sequence[st[n]] as int)));
                if g[n].node_type is VNF {
                    let s = g[n].node_type->VNF_0 as int;
                    assert(sequence[s] != sequence[s + 1]);
                }
                assert(false);
            }
            if g[n].node_type is Component {
                // a component is entered from a node heading for the same stage, which has
                // successors and so heads for a stage of the chain
                assert(n != 0);
                let nu = n as usize;
                assert(g[nu as int].route_count == in_degree(g, nu));
                assert(g[n].route_count >= 1);
                if forall|j: int, k: int| 0 <= j < g.len() && 0 <= k < g[j].next_nodes@.len() ==> #[trigger] g[j].next_nodes@[k]
                    != n as usize {
                    crate::model::lemma_edges_none(g, n as usize, g.len() as int);
                    assert(false);
                }
                let (j, k) = choose|j: int, k: int| 0 <= j < g.len() && 0 <= k < g[j].next_nodes@.len()
                    && #[trigger] g[j].next_nodes@[k] == n as usize;
                assert(st[n] == st[j]);
                assert(st[j] < len);
                assert(false);
            }
        } else {
            if g[n].node_type == NodeType::VNF((len - 1) as usize) {
                assert(st[n] == len);
            }
        }
    }
}

/// Walking the route graph of a chain from its first VNF visits each node of the graph exactly
/// once: every node receives all the arrivals its route count waits for, since each edge leads
/// one hop closer to the VM of its stage or on to the next stage.
pub proof fn lemma_route_walk_complete(sequence: Seq<usize>, dc: FatTree, g: Seq<RouteNode>)
    requires
        route_args(sequence, dc),
        route_graph(g, sequence, dc),
        route_shape(g, sequence, dc),
        g.len() <= usize::MAX,
    ensures
        forall|n: usize| n < g.len() ==> #[trigger] visit_order(g).contains(n),
        visit_order(g).no_duplicates(),
{
    let st = choose|st: Seq<int>| shaped_by(g, sequence, dc, st);
    let len = sequence.len() as int;
    let phi = Seq::new(g.len(), |n: int| 9 * st[n] - hops(dc, g[n].node_id as int, sequence[st[n]] as int));
    assert forall|n: int| 0 <= n < phi.len() implies #[trigger] phi[n] >= 0 by {
        lemma_hops_range(dc, g[n].node_id as int, sequence[st[n]] as int);
        assert(1 <= st[n]);
    }
    assert forall|j: int, k: int| 0 <= j < g.len() && 0 <= k < g[j].next_nodes@.len() implies phi[
        #[trigger] g[j].next_nodes@[k] as int] > phi[j] by {
        let m = g[j].next_nodes@[k] as int;
        assert(st[j] < len) by {
            if st[j] == len {
                assert(g[j].next_nodes@.len() == 0);
            }
        }
        let dest = sequence[st[j]] as int;
        let steps = step_spec(dc, g[j].node_id as int, dest);
        assert(leads_to(g, g[j].next_nodes@, steps));
        assert(g[m].node_id == steps[k]);
        lemma_steps_approach(dc, g[j].node_id as int, dest);
        assert(hops(dc, steps[k], dest) + 1 == hops(dc, g[j].node_id as int, dest));
        lemma_hops_range(dc, g[j].node_id as int, dest);
        lemma_hops_range(dc, g[m].node_id as int, sequence[st[m]] as int);
        assert(0 <= m < g.len());
    }
    lemma_walk_visits_all(g, phi);
}

/// The larger of two numbers.
pub open spec fn larger(a: int, b: int) -> int {
    if a < b {
        b
    } else {
        a
    }
}

/// The largest of the first `k` entries of `s`, or 0.
pub open spec fn max_upto(s: Seq<usize>, k: int) -> int
    decreases k,
{
    if k <= 0 {
        0
    } else {
        larger(max_upto(s, k - 1), s[k - 1] as int)
    }
}

/// The largest successor of the nodes before `j`, or 0.
pub open spec fn top_before(g: Seq<RouteNode>, j: int) -> int
    decreases j,
{
    if j <= 0 {
        0
    } else {
        larger(top_before(g, j - 1), max_upto(g[j - 1].next_nodes@, g[j - 1].next_nodes@.len() as int))
    }
}

/// The nodes of a route graph are numbered breadth-first: every edge leads to a node of higher
/// number, and reading the successor lists node by node, each successor is a node already read
/// or the next one not yet read.
pub open spec fn numbered_breadth_first(g: Seq<RouteNode>) -> bool {
    forall|j: int, k: int|
        0 <= j < g.len() && 0 <= k < g[j].next_nodes@.len() ==> {
            let m = #[trigger] g[j].next_nodes@[k] as int;
            &&& j < m
            &&& m <= larger(top_before(g, j), max_upto(g[j].next_nodes@, k)) + 1
        }
}

/// Hops from the VM of the first stage to the VM of stage `k`, stage by stage.
pub open spec fn stage_start(dc: FatTree, sequence: Seq<usize>, k: int) -> int
    decreases k,
{
    if k <= 0 {
        0
    } else {
        stage_start(dc, sequence, k - 1) + hops(dc, sequence[k - 1] as int, sequence[k] as int)
    }
}

/// How many hops a walk along the chain has made when it stands at `node` heading for stage `k`.
pub open spec fn level(dc: FatTree, sequence: Seq<usize>, node: int, k: int) -> int {
    stage_start(dc, sequence, k) - hops(dc, node, sequence[k] as int)
}

/// The level of graph node `n`, reached at stage `kst[n]`.
spec fn node_level(g: Seq<RouteNode>, kst: Seq<int>, sequence: Seq<usize>, dc: FatTree, n: int) -> int {
    level(dc, sequence, g[n].node_id as int, kst[n])
}

proof fn lemma_max_upto_nonneg(s: Seq<usize>, k: int)
    ensures
        max_upto(s, k) >= 0,
    decreases k,
{
    if k > 0 {
        lemma_max_upto_nonneg(s, k - 1);
    }
}

proof fn lemma_top_before_nonneg(g: Seq<RouteNode>, j: int)
    ensures
        top_before(g, j) >= 0,
    decreases j,
{
    if j > 0 {
        lemma_top_before_nonneg(g, j - 1);
    }
}

proof fn lemma_max_upto_prefix(s1: Seq<usize>, s2: Seq<usize>, k: int)
    requires
        forall|i: int| 0 <= i < k ==> s1[i] == s2[i],
    ensures
        max_upto(s1, k) == max_upto(s2, k),
    decreases k,
{
    if k > 0 {
        lemma_max_upto_prefix(s1, s2, k - 1);
    }
}

proof fn lemma_top_before_same(g1: Seq<RouteNode>, g2: Seq<RouteNode>, j: int)
    requires
        forall|i: int| 0 <= i < j ==> #[trigger] g1[i].next_nodes@ == g2[i].next_nodes@,
    ensures
        top_before(g1, j) == top_before(g2, j),
    decreases j,
{
    if j > 0 {
        lemma_top_before_same(g1, g2, j - 1);
        assert(g1[j - 1].next_nodes@ == g2[j - 1].next_nodes@);
    }
}

proof fn lemma_top_before_skip(g: Seq<RouteNode>, a: int, b: int)
    requires
        0 <= a <= b,
        forall|i: int| a <= i < b ==> #[trigger] g[i].next_nodes@.len() == 0,
    ensures
        top_before(g, b) == top_before(g, a),
    decreases b - a,
{
    if a < b {
        lemma_top_before_skip(g, a, b - 1);
        assert(g[b - 1].next_nodes@.len() == 0);
        lemma_top_before_nonneg(g, b - 1);
    }
}

/// How the construction numbers nodes while it expands node `curr`, `k` successors in: nodes
/// are numbered breadth-first so far, levels grow with the number and stay within one of
/// `curr`'s, the queue holds later nodes in order, nodes after `curr` have no successors yet,
/// and the last node is the largest successor read.
#[verifier::opaque]
spec fn order_at(
    g: Seq<RouteNode>,
    kst: Seq<int>,
    q: Seq<(usize, usize)>,
    head: int,
    curr: int,
    k: int,
    sequence: Seq<usize>,
    dc: FatTree,
) -> bool {
    &&& kst.len() == g.len()
    &&& kst[0] == 0
    &&& 0 <= curr < g.len()
    &&& numbered_breadth_first(g)
    &&& forall|i: int, j: int|
        0 <= i <= j < g.len() ==> #[trigger] node_level(g, kst, sequence, dc, i) <= #[trigger] node_level(
            g,
            kst,
            sequence,
            dc,
            j,
        )
    &&& forall|n: int|
        0 <= n < g.len() ==> #[trigger] node_level(g, kst, sequence, dc, n) <= node_level(g, kst, sequence, dc, curr) + 1
    &&& forall|t1: int, t2: int| head <= t1 < t2 < q.len() ==> #[trigger] q[t1].1 < #[trigger] q[t2].1
    &&& forall|t: int| head <= t < q.len() ==> curr < #[trigger] q[t].1 < g.len()
    &&& forall|n: int| curr < n < g.len() ==> #[trigger] g[n].next_nodes@.len() == 0
    &&& g[curr].next_nodes@.len() == k
    &&& g.len() - 1 == larger(top_before(g, curr), max_upto(g[curr].next_nodes@, k))
}

/// How the construction numbers nodes between expansions, `last` the node expanded last.
#[verifier::opaque]
spec fn order_inv(
    g: Seq<RouteNode>,
    kst: Seq<int>,
    q: Seq<(usize, usize)>,
    head: int,
    last: int,
    sequence: Seq<usize>,
    dc: FatTree,
) -> bool {
    &&& kst.len() == g.len()
    &&& g.len() >= 1
    &&& kst[0] == 0
    &&& -1 <= last < g.len()
    &&& numbered_breadth_first(g)
    &&& forall|i: int, j: int|
        0 <= i <= j < g.len() ==> #[trigger] node_level(g, kst, sequence, dc, i) <= #[trigger] node_level(
            g,
            kst,
            sequence,
            dc,
            j,
        )
    &&& forall|n: int, t: int|
        0 <= n < g.len() && head <= t < q.len() ==> #[trigger] node_level(g, kst, sequence, dc, n) <= node_level(
            g,
            kst,
            sequence,
            dc,
            #[trigger] q[t].1 as int,
        ) + 1
    &&& forall|t1: int, t2: int| head <= t1 < t2 < q.len() ==> #[trigger] q[t1].1 < #[trigger] q[t2].1
    &&& forall|t: int| head <= t < q.len() ==> last < #[trigger] q[t].1 < g.len()
    &&& forall|n: int| last < n < g.len() ==> #[trigger] g[n].next_nodes@.len() == 0
    &&& g.len() - 1 == top_before(g, last + 1)
}

/// Taking the next node from the queue starts its expansion.
proof fn lemma_order_begin(
    g: Seq<RouteNode>,
    kst: Seq<int>,
    q: Seq<(usize, usize)>,
    head: int,
    last: int,
    sequence: Seq<usize>,
    dc: FatTree,
)
    requires
        order_inv(g, kst, q, head, last, sequence, dc),
        0 <= head < q.len(),
    ensures
        order_at(g, kst, q, head + 1, q[head].1 as int, 0, sequence, dc),
        last < q[head].1,
{
    reveal(order_inv);
    reveal(order_at);
    let curr = q[head].1 as int;
    assert(last < q[head].1 < g.len());
    lemma_top_before_skip(g, last + 1, curr);
    lemma_top_before_nonneg(g, curr);
    assert forall|n: int| 0 <= n < g.len() implies #[trigger] node_level(g, kst, sequence, dc, n) <= node_level(
        g,
        kst,
        sequence,
        dc,
        curr,
    ) + 1 by {
        assert(node_level(g, kst, sequence, dc, n) <= node_level(g, kst, sequence, dc, q[head].1 as int) + 1);
    }
    assert forall|t: int| head + 1 <= t < q.len() implies curr < #[trigger] q[t].1 < g.len() by {
        assert(q[head].1 < q[t].1);
    }
}

/// Finishing the expansion of `curr` makes it the last node expanded.
proof fn lemma_order_end(
    g: Seq<RouteNode>,
    kst: Seq<int>,
    q: Seq<(usize, usize)>,
    head: int,
    curr: int,
    sequence: Seq<usize>,
    dc: FatTree,
)
    requires
        order_at(g, kst, q, head, curr, g[curr].next_nodes@.len() as int, sequence, dc),
    ensures
        order_inv(g, kst, q, head, curr, sequence, dc),
{
    reveal(order_inv);
    reveal(order_at);
    assert(top_before(g, curr + 1) == larger(top_before(g, curr), max_upto(g[curr].next_nodes@,
        g[curr].next_nodes@.len() as int)));
    assert forall|n: int, t: int| 0 <= n < g.len() && head <= t < q.len() implies #[trigger] node_level(
        g,
        kst,
        sequence,
        dc,
        n,
    ) <= node_level(g, kst, sequence, dc, #[trigger] q[t].1 as int) + 1 by {
        assert(curr < q[t].1 < g.len());
        assert(node_level(g, kst, sequence, dc, curr) <= node_level(g, kst, sequence, dc, q[t].1 as int));
    }
}

/// Levels are read from the components and stages alone.
proof fn lemma_levels_same(
    g0: Seq<RouteNode>,
    g: Seq<RouteNode>,
    kst0: Seq<int>,
    kst: Seq<int>,
    sequence: Seq<usize>,
    dc: FatTree,
)
    requires
        g0.len() <= g.len(),
        kst0.len() == g0.len(),
        forall|j: int| #![trigger g[j]] 0 <= j < g0.len() ==> g[j].node_id == g0[j].node_id,
        forall|j: int| 0 <= j < g0.len() ==> #[trigger] kst[j] == kst0[j],
    ensures
        forall|n: int| 0 <= n < g0.len() ==> #[trigger] node_level(g, kst, sequence, dc, n) == node_level(
            g0,
            kst0,
            sequence,
            dc,
            n,
        ),
{
    assert forall|n: int| 0 <= n < g0.len() implies #[trigger] node_level(g, kst, sequence, dc, n) == node_level(
        g0,
        kst0,
        sequence,
        dc,
        n,
    ) by {
        assert(g[n].node_id == g0[n].node_id);
        assert(kst[n] == kst0[n]);
    }
}

/// An edge from `curr` to a node already in the graph, one level further, keeps the numbering.
proof fn lemma_order_found(
    g0: Seq<RouteNode>,
    g: Seq<RouteNode>,
    kst: Seq<int>,
    q: Seq<(usize, usize)>,
    head: int,
    curr: int,
    k: int,
    m: usize,
    sequence: Seq<usize>,
    dc: FatTree,
)
    requires
        order_at(g0, kst, q, head, curr, k, sequence, dc),
        g.len() == g0.len(),
        forall|j: int| #![trigger g[j]] 0 <= j < g0.len() ==> g[j].node_id == g0[j].node_id,
        forall|j: int| 0 <= j < g0.len() && j != curr ==> #[trigger] g[j].next_nodes@ == g0[j].next_nodes@,
        g[curr].next_nodes@ == g0[curr].next_nodes@.push(m),
        m < g0.len(),
        node_level(g0, kst, sequence, dc, m as int) == node_level(g0, kst, sequence, dc, curr) + 1,
    ensures
        order_at(g, kst, q, head, curr, k + 1, sequence, dc),
        curr < m,
{
    reveal(order_at);
    lemma_levels_same(g0, g, kst, kst, sequence, dc);
    assert(curr < m) by {
        if m <= curr {
            assert(node_level(g0, kst, sequence, dc, m as int) <= node_level(g0, kst, sequence, dc, curr));
        }
    }
    let l0 = g0[curr].next_nodes@;
    let l = g[curr].next_nodes@;
    assert forall|i: int| 0 <= i < k implies l[i] == l0[i] by {}
    lemma_max_upto_prefix(l, l0, k);
    lemma_top_before_same(g, g0, curr);
    lemma_max_upto_nonneg(l0, k);
    lemma_top_before_nonneg(g0, curr);
    assert(max_upto(l, k + 1) == larger(max_upto(l, k), m as int));
    assert forall|j: int, kk: int| 0 <= j < g.len() && 0 <= kk < g[j].next_nodes@.len() implies {
        let mm = #[trigger] g[j].next_nodes@[kk] as int;
        &&& j < mm
        &&& mm <= larger(top_before(g, j), max_upto(g[j].next_nodes@, kk)) + 1
    } by {
        if j < curr {
            assert forall|i: int| 0 <= i < j implies #[trigger] g[i].next_nodes@ == g0[i].next_nodes@ by {}
            lemma_top_before_same(g, g0, j);
            assert(g[j].next_nodes@ == g0[j].next_nodes@);
            assert(g0[j].next_nodes@[kk] == g[j].next_nodes@[kk]);
        } else if j == curr {
            if kk < k {
                lemma_max_upto_prefix(l, l0, kk);
                assert(l[kk] == l0[kk]);
                assert(g0[curr].next_nodes@[kk] == l0[kk]);
            }
        } else {
            assert(g[j].next_nodes@ == g0[j].next_nodes@);
        }
    }
    assert forall|n: int| curr < n < g.len() implies #[trigger] g[n].next_nodes@.len() == 0 by {
        assert(g[n].next_nodes@ == g0[n].next_nodes@);
    }
}

/// An edge from `curr` to a node appended for it, one level further, keeps the numbering.
#[verifier::rlimit(40)]
proof fn lemma_order_new(
    g0: Seq<RouteNode>,
    g: Seq<RouteNode>,
    kst0: Seq<int>,
    kst: Seq<int>,
    q0: Seq<(usize, usize)>,
    q: Seq<(usize, usize)>,
    head: int,
    curr: int,
    k: int,
    stage: int,
    sequence: Seq<usize>,
    dc: FatTree,
)
    requires
        order_at(g0, kst0, q0, head, curr, k, sequence, dc),
        g.len() == g0.len() + 1,
        g.len() <= usize::MAX,
        forall|j: int| #![trigger g[j]] 0 <= j < g0.len() ==> g[j].node_id == g0[j].node_id,
        forall|j: int| 0 <= j < g0.len() && j != curr ==> #[trigger] g[j].next_nodes@ == g0[j].next_nodes@,
        g[curr].next_nodes@ == g0[curr].next_nodes@.push(g0.len() as usize),
        g[g0.len() as int].next_nodes@.len() == 0,
        kst == kst0.push(stage),
        q0.len() <= q.len() <= q0.len() + 1,
        forall|t: int| 0 <= t < q0.len() ==> #[trigger] q[t] == q0[t],
        forall|t: int| q0.len() <= t < q.len() ==> #[trigger] q[t].1 == g0.len(),
        0 <= head <= q0.len(),
        level(dc, sequence, g[g0.len() as int].node_id as int, stage) == node_level(g0, kst0, sequence, dc, curr) + 1,
    ensures
        order_at(g, kst, q, head, curr, k + 1, sequence, dc),
{
    reveal(order_at);
    let nn = g0.len() as int;
    lemma_levels_same(g0, g, kst0, kst, sequence, dc);
    assert(node_level(g, kst, sequence, dc, nn) == node_level(g0, kst0, sequence, dc, curr) + 1);
    let l0 = g0[curr].next_nodes@;
    let l = g[curr].next_nodes@;
    assert forall|i: int| 0 <= i < k implies l[i] == l0[i] by {}
    lemma_max_upto_prefix(l, l0, k);
    lemma_top_before_same(g, g0, curr);
    lemma_max_upto_nonneg(l0, k);
    lemma_top_before_nonneg(g0, curr);
    assert(l[k] as int == nn);
    assert(max_upto(l, k + 1) == larger(max_upto(l, k), nn));
    assert forall|i: int, j: int| 0 <= i <= j < g.len() implies #[trigger] node_level(g, kst, sequence, dc, i)
        <= #[trigger] node_level(g, kst, sequence, dc, j) by {
        if j < nn {
            assert(node_level(g0, kst0, sequence, dc, i) <= node_level(g0, kst0, sequence, dc, j));
        } else if i < nn {
            assert(node_level(g0, kst0, sequence, dc, i) <= node_level(g0, kst0, sequence, dc, curr) + 1);
        }
    }
    assert forall|n: int| 0 <= n < g.len() implies #[trigger] node_level(g, kst, sequence, dc, n) <= node_level(
        g,
        kst,
        sequence,
        dc,
        curr,
    ) + 1 by {
        if n < nn {
            assert(node_level(g0, kst0, sequence, dc, n) <= node_level(g0, kst0, sequence, dc, curr) + 1);
        }
    }
    assert forall|t1: int, t2: int| head <= t1 < t2 < q.len() implies #[trigger] q[t1].1 < #[trigger] q[t2].1 by {
        if t2 < q0.len() {
            assert(q0[t1].1 < q0[t2].1);
        } else {
            assert(q[t1] == q0[t1]);
            assert(q0[t1].1 < g0.len());
        }
    }
    assert forall|t: int| head <= t < q.len() implies curr < #[trigger] q[t].1 < g.len() by {
        if t < q0.len() {
            assert(q[t] == q0[t]);
        }
    }
    assert forall|j: int, kk: int| 0 <= j < g.len() && 0 <= kk < g[j].next_nodes@.len() implies {
        let mm = #[trigger] g[j].next_nodes@[kk] as int;
        &&& j < mm
        &&& mm <= larger(top_before(g, j), max_upto(g[j].next_nodes@, kk)) + 1
    } by {
        if j < curr {
            assert forall|i: int| 0 <= i < j implies #[trigger] g[i].next_nodes@ == g0[i].next_nodes@ by {}
            lemma_top_before_same(g, g0, j);
            assert(g[j].next_nodes@ == g0[j].next_nodes@);
            assert(g0[j].next_nodes@[kk] == g[j].next_nodes@[kk]);
        } else if j == curr {
            if kk < k {
                lemma_max_upto_prefix(l, l0, kk);
                assert(l[kk] == l0[kk]);
                assert(g0[curr].next_nodes@[kk] == l0[kk]);
            }
        } else if j < nn {
            assert(g[j].next_nodes@ == g0[j].next_nodes@);
        }
    }
    assert forall|n: int| curr < n < g.len() implies #[trigger] g[n].next_nodes@.len() == 0 by {
        if n < nn {
            assert(g[n].next_nodes@ == g0[n].next_nodes@);
        }
    }
}

/// A next step from a node of the graph towards the stage it heads for is one level further.
proof fn lemma_edge_level(
    g: Seq<RouteNode>,
    kst: Seq<int>,
    sequence: Seq<usize>,
    dc: FatTree,
    curr: int,
    stage: int,
    i: int,
)
    requires
        route_args(sequence, dc),
        0 <= curr < g.len(),
        kst.len() == g.len(),
        g[curr].node_id < dc.spec_all(),
        1 <= stage < sequence.len(),
        stage == heading(g[curr], kst[curr]),
        g[curr].node_type is VNF ==> kst[curr] == g[curr].node_type->VNF_0 && g[curr].node_id
            == sequence[g[curr].node_type->VNF_0 as int],
        0 <= i < step_spec(dc, g[curr].node_id as int, sequence[stage] as int).len(),
    ensures
        level(dc, sequence, step_spec(dc, g[curr].node_id as int, sequence[stage] as int)[i], stage) == node_level(
            g,
            kst,
            sequence,
            dc,
            curr,
        ) + 1,
{
    let node = g[curr].node_id as int;
    let dest = sequence[stage] as int;
    lemma_steps_approach(dc, node, dest);
    match g[curr].node_type {
        NodeType::VNF(s) => {
            assert(0 <= s < stage);
            lemma_steps_approach(dc, node, node);
            assert(stage_start(dc, sequence, stage) == stage_start(dc, sequence, s as int) + hops(dc, node, dest));
        },
        NodeType::Component => {},
    }
}

/// The maps held by a list of hash maps.
pub open spec fn maps_view(v: Seq<HashMap<usize, usize>>) -> Seq<Map<usize, usize>> {
    v.map_values(|m: HashMap<usize, usize>| m@)
}

/// The invariant of the graph construction.
spec fn build_inv(
    g: Seq<RouteNode>,
    kst: Seq<int>,
    keys: Set<int>,
    lk: Seq<Map<usize, usize>>,
    sequence: Seq<usize>,
    dc: FatTree,
) -> bool {
    let len = sequence.len() as int;
    let a = dc.spec_all();
    &&& g.len() >= 1
    &&& g.len() == kst.len()
    &&& g[0].node_type == NodeType::VNF(0)
    &&& g[0].node_id == sequence[0]
    &&& forall|n: int| 0 <= n < g.len() ==> #[trigger] g[n].node_id < a
    &&& forall|n: int|
        0 <= n < g.len() && #[trigger] g[n].node_type is VNF ==> g[n].node_type->VNF_0 < len
            && g[n].node_id == sequence[g[n].node_type->VNF_0 as int]
    &&& forall|j: int, k: int|
        0 <= j < g.len() && 0 <= k < g[j].next_nodes@.len() ==> 1 <= #[trigger] g[j].next_nodes@[k] < g.len()
    &&& forall|n: int| 0 <= n < g.len() ==> #[trigger] g[n].next_nodes@.no_duplicates()
    &&& forall|n: usize|
        n < g.len() ==> #[trigger] g[n as int].route_count == in_degree(g, n) + (if n == 0 { 1nat } else { 0nat })
    &&& forall|n: int| 0 <= n < g.len() ==> #[trigger] g[n].route_count >= 1
    &&& lk.len() == len
    &&& forall|st: int, x: usize|
        0 <= st < len && #[trigger] lk[st].contains_key(x) ==> 1 <= lk[st][x] < g.len() && g[lk[st][x] as int].node_id
            == x && kst[lk[st][x] as int] == st
    &&& forall|n: int|
        1 <= n < g.len() ==> 0 <= #[trigger] kst[n] < len && lk[kst[n]].contains_key(g[n].node_id) && lk[kst[n]][g[n].node_id]
            == n
    &&& keys.finite()
    &&& keys.len() + 1 == g.len()
    &&& forall|k: int| #[trigger] keys.contains(k) ==> 0 <= k < len * a
    &&& forall|st: int, x: usize| 0 <= st < len && x < a ==> (keys.contains(st * a + x) <==> #[trigger] lk[st].contains_key(x))
}

proof fn lemma_graph_bound(keys: Set<int>, len: int, a: int)
    requires
        keys.finite(),
        0 <= len * a,
        forall|k: int| #[trigger] keys.contains(k) ==> 0 <= k < len * a,
    ensures
        keys.len() <= len * a,
{
    vstd::set_lib::lemma_int_range(0, len * a);
    vstd::set_lib::lemma_len_subset(keys, vstd::set_lib::set_int_range(0, len * a));
}

proof fn lemma_key_unique(st1: int, x1: int, st2: int, x2: int, a: int)
    requires
        0 <= x1 < a,
        0 <= x2 < a,
        st1 * a + x1 == st2 * a + x2,
    ensures
        st1 == st2,
        x1 == x2,
{
    assert(st1 == st2) by (nonlinear_arith) requires 0 <= x1 < a, 0 <= x2 < a, st1 * a + x1 == st2 * a + x2;
}

/// Builds the multistage route graph of a service chain: from the VM of its first VNF, along all
/// shortest paths of the fat tree to the VM of each next stage in turn. A component reached
/// again at the same stage is shared; its route count counts the edges into it.
pub fn find_routes(sequence: Vec<NodeID>, dc: &FatTree) -> (graph: Vec<RouteNode>)
    requires
        route_args(sequence@, *dc),
    ensures
        route_graph(graph@, sequence@, *dc),
        route_shape(graph@, sequence@, *dc),
        numbered_breadth_first(graph@),
{
    let ghost a = dc.spec_all();
    let ghost len = sequence@.len() as int;
    let num_all = dc.num_all();
    let seq_len = sequence.len();
    proof {
        assert(0 <= len * a) by (nonlinear_arith) requires len >= 0, a >= 0;
    }
    // Route graph
    let init_server_id = sequence[0];
    let init_node = RouteNode::new_vnf(init_server_id, 0);
    let mut graph: Vec<RouteNode> = Vec::new();
    graph.push(init_node);
    // Lookup, per stage, from data-centre node to its position in the route graph
    let mut lookup: Vec<HashMap<usize, usize>> = Vec::new();
    let mut t: usize = 0;
    while t < seq_len
        invariant
            t <= seq_len,
            lookup@.len() == t,
            forall|i: int| 0 <= i < t ==> #[trigger] lookup@[i]@ == Map::<usize, usize>::empty(),
        decreases seq_len - t,
    {
        lookup.push(HashMap::new());
        t += 1;
    }
    let mut queue: Vec<(usize, usize)> = Vec::new();
    queue.push((1, 0));
    let mut head: usize = 0;
    let ghost mut kst: Seq<int> = seq![0int];
    let ghost mut qidx: Seq<int> = seq![0int];
    let ghost mut keys: Set<int> = Set::empty();
    let ghost mut last: int = -1;
    proof {
        assert(graph@[0].next_nodes@.len() == 0);
        assert(crate::model::occ(graph@[0].next_nodes@, 0) == 0);
        assert(crate::model::edges_into(graph@, 0, 0) == 0);
        assert(in_degree(graph@, 0) == 0);
        assert forall|st: int, x: usize| 0 <= st < len && x < a implies (keys.contains(st * a + x) <==> #[trigger] maps_view(lookup@)[st].contains_key(x)) by {
            assert(maps_view(lookup@)[st] == lookup@[st]@);
        }
        assert(heading(graph@[0], kst[0]) == 1);
        assert(queue@[0] == (1usize, 0usize));
        assert(shape_inv(graph@, kst, qidx, queue@, head as int, sequence@, *dc, -1));
        assert(order_inv(graph@, kst, queue@, head as int, last, sequence@, *dc)) by {
            reveal(order_inv);
        }
    }
    while head < queue.len()
        invariant
            a == dc.spec_all(),
            len == sequence@.len(),
            len == seq_len,
            num_all == a,
            route_args(sequence@, *dc),
            0 <= len * a,
            build_inv(graph@, kst, keys, maps_view(lookup@), sequence@, *dc),
            shape_inv(graph@, kst, qidx, queue@, head as int, sequence@, *dc, -1),
            order_inv(graph@, kst, queue@, head as int, last, sequence@, *dc),
            kst[0] == 0,
            head <= queue@.len(),
            forall|t: int|
                #![trigger queue@[t]]
                head <= t < queue@.len() ==> 1 <= queue@[t].0 < len && queue@[t].1 < graph@.len()
                    && graph@[queue@[t].1 as int].next_nodes@.len() == 0,
            forall|t1: int, t2: int| head <= t1 < queue@.len() && head <= t2 < queue@.len() && t1 != t2
                ==> #[trigger] queue@[t1].1 != #[trigger] queue@[t2].1,
        decreases 2 * (len * a + 1 - graph@.len()) + (queue@.len() - head),
    {
        let ghost lkv = maps_view(lookup@);
        proof {
            lemma_graph_bound(keys, len, a);
        }
        let (stage, curr) = queue[head];
        proof {
            lemma_order_begin(graph@, kst, queue@, head as int, last, sequence@, *dc);
        }
        proof {
            assert(queue@[head as int].0 == heading(graph@[queue@[head as int].1 as int], kst[queue@[head as int].1 as int]));
        }
        head = head + 1;
        let target = sequence[stage];
        let curr_dc_node = graph[curr].node_id;
        let next_dc_nodes = next_step(curr_dc_node, target, dc);
        let ghost ns = step_spec(*dc, curr_dc_node as int, target as int);
        proof {
            lemma_step_in_tree(*dc, curr_dc_node as int, target as int);
        }
        let ghost q_mid = queue@;
        let ghost head0 = head;
        let ghost measure = 2 * (len * a + 1 - graph@.len()) + (queue@.len() - head);
        proof {
            assert(queue@[head - 1] == (stage, curr));
            assert forall|t: int| #![trigger queue@[t]] head <= t < queue@.len() implies queue@[t].1 != curr by {
                assert(queue@[t].1 != queue@[head - 1].1);
            }
            assert(stage == heading(graph@[curr as int], kst[curr as int]));
            assert(0 <= qidx[curr as int] < queue@.len() && queue@[qidx[curr as int]].1 == curr);
            if qidx[curr as int] >= head {
                assert(queue@[qidx[curr as int]].1 != curr);
            }
            assert(shape_inv(graph@, kst, qidx, queue@, head as int, sequence@, *dc, curr as int)) by {
                assert forall|n: int|
                    0 <= n < graph@.len() && n != curr && heading(graph@[n], kst[n]) < len && #[trigger] qidx[n]
                        < head implies leads_to(
                    graph@,
                    graph@[n].next_nodes@,
                    step_spec(*dc, graph@[n].node_id as int, sequence@[heading(graph@[n], kst[n])] as int),
                ) by {
                    if qidx[n] == head - 1 {
                        assert(queue@[qidx[n]].1 == n);
                    }
                }
            }
        }
        let mut k: usize = 0;
        while k < next_dc_nodes.len()
            invariant
                a == dc.spec_all(),
                len == sequence@.len(),
                len == seq_len,
                num_all == a,
                route_args(sequence@, *dc),
                0 <= len * a,
                build_inv(graph@, kst, keys, maps_view(lookup@), sequence@, *dc),
                1 <= stage < len,
                target == sequence@[stage as int],
                curr < graph@.len(),
                same_nodes(next_dc_nodes@, ns),
                ns == step_spec(*dc, curr_dc_node as int, target as int),
                forall|i: int| 0 <= i < ns.len() ==> 0 <= #[trigger] ns[i] < a,
                ns.no_duplicates(),
                k <= next_dc_nodes@.len(),
                graph@[curr as int].next_nodes@.len() == k,
                forall|t: int| 0 <= t < k ==> #[trigger] graph@[graph@[curr as int].next_nodes@[t] as int].node_id == ns[t]
                    && kst[graph@[curr as int].next_nodes@[t] as int] == stage,
                head == head0,
                head <= queue@.len(),
                shape_inv(graph@, kst, qidx, queue@, head as int, sequence@, *dc, curr as int),
                order_at(graph@, kst, queue@, head as int, curr as int, k as int, sequence@, *dc),
                kst[0] == 0,
                last < curr,
                stage == heading(graph@[curr as int], kst[curr as int]),
                qidx[curr as int] < head,
                graph@[curr as int].node_id == curr_dc_node,
                q_mid.len() <= queue@.len(),
                forall|t: int| head <= t < q_mid.len() ==> queue@[t] == q_mid[t],
                forall|t: int|
                    #![trigger queue@[t]]
                    head <= t < queue@.len() ==> 1 <= queue@[t].0 < len && queue@[t].1 < graph@.len()
                        && queue@[t].1 != curr && graph@[queue@[t].1 as int].next_nodes@.len() == 0,
                forall|t1: int, t2: int| head <= t1 < queue@.len() && head <= t2 < queue@.len() && t1 != t2
                    ==> #[trigger] queue@[t1].1 != #[trigger] queue@[t2].1,
                2 * (len * a + 1 - graph@.len()) + (queue@.len() - head) <= measure,
            decreases next_dc_nodes@.len() - k,
        {
            let next_dc_node = next_dc_nodes[k];
            let ghost g0 = graph@;
            let ghost lk0 = maps_view(lookup@);
            let ghost kst0 = kst;
            let ghost qidx0 = qidx;
            let ghost q0 = queue@;
            proof {
                lemma_graph_bound(keys, len, a);
                assert(next_dc_node == ns[k as int]);
            }
            match lookup[stage].get(&next_dc_node) {
                Some(node_ref) => {
                    let node_id = *node_ref;
                    proof {
                        assert(lk0[stage as int] == lookup@[stage as int]@);
                        assert(lk0[stage as int].contains_key(next_dc_node));
                        lemma_edges_bounded(g0, node_id, g0.len() as int);
                    }
                    // Already in the graph: one more route leads to it
                    graph[node_id].route_count = graph[node_id].route_count + 1;
                    graph[curr].next_nodes.push(node_id);
                    proof {
                        let g = graph@;
                        assert forall|j: int| 0 <= j < g0.len() && j != curr implies #[trigger] g0[j].next_nodes@
                            == g[j].next_nodes@ by {}
                        assert forall|n: usize| n < g.len() implies #[trigger] g[n as int].route_count == in_degree(g, n)
                            + (if n == 0 { 1nat } else { 0nat }) by {
                            lemma_edges_push(g0, g, curr as int, node_id, n, g0.len() as int);
                        }
                        assert(g[curr as int].next_nodes@.no_duplicates()) by {
                            let l = g[curr as int].next_nodes@;
                            assert(g0[curr as int].next_nodes@.no_duplicates());
                            assert forall|i: int, j: int| 0 <= i < l.len() && 0 <= j < l.len() && i != j implies l[i] != l[j] by {
                                if j == k {
                                    assert(g0[l[i] as int].node_id == ns[i]);
                                    assert(g0[node_id as int].node_id == ns[k as int]);
                                    assert(ns[i] != ns[k as int]);
                                } else if i == k {
                                    assert(g0[l[j] as int].node_id == ns[j]);
                                    assert(g0[node_id as int].node_id == ns[k as int]);
                                    assert(ns[j] != ns[k as int]);
                                } else {
                                    assert(l[i] == g0[curr as int].next_nodes@[i]);
                                    assert(l[j] == g0[curr as int].next_nodes@[j]);
                                }
                            }
                        }
                        assert(maps_view(lookup@) =~= lk0);
                        assert forall|j: int| #![trigger g[j]] 0 <= j < g0.len() implies g[j].node_id == g0[j].node_id
                            && g[j].node_type == g0[j].node_type by {}
                        assert(g[curr as int].next_nodes@ == g0[curr as int].next_nodes@.push(node_id));
                        assert(g[curr as int].next_nodes@.drop_last() =~= g0[curr as int].next_nodes@);
                        assert(kst[node_id as int] == stage);
                        lemma_shape_step(g0, g, kst, kst, qidx, qidx, q0, queue@, head as int, sequence@, *dc,
                            curr as int, stage as int);
                        assert(g0[curr as int].node_type is VNF ==> kst[curr as int] == g0[curr as int].node_type->VNF_0
                            && g0[curr as int].node_id == sequence@[g0[curr as int].node_type->VNF_0 as int]) by {
                            if curr == 0 {
                                assert(g0[0].node_type == NodeType::VNF(0));
                            } else if g0[curr as int].node_type is VNF {
                                assert(1 <= curr < g0.len());
                            }
                        }
                        assert(g0[node_id as int].node_id == next_dc_node && kst[node_id as int] == stage as int);
                        assert(ns == step_spec(*dc, g0[curr as int].node_id as int, sequence@[stage as int] as int));
                        assert(k < ns.len() && next_dc_node == ns[k as int]);
                        lemma_edge_level(g0, kst, sequence@, *dc, curr as int, stage as int, k as int);
                        assert(node_level(g0, kst, sequence@, *dc, node_id as int) == level(*dc, sequence@,
                            next_dc_node as int, stage as int));
                        lemma_order_found(g0, g, kst, queue@, head as int, curr as int, k as int, node_id, sequence@,
                            *dc);
                    }
                },
                None => {
                    let node_id = graph.len();
                    proof {
                        assert(lk0[stage as int] == lookup@[stage as int]@);
                        assert(!lk0[stage as int].contains_key(next_dc_node));
                        assert(!keys.contains(stage * a + next_dc_node));
                        assert(keys.len() < len * a) by {
                            let nk = stage * a + next_dc_node;
                            assert(0 <= nk < len * a) by (nonlinear_arith)
                                requires 1 <= stage < len, 0 <= next_dc_node < a, nk == stage * a + next_dc_node;
                            vstd::set_lib::lemma_int_range(0, len * a);
                            assert(keys.insert(nk).subset_of(vstd::set_lib::set_int_range(0, len * a)));
                            vstd::set_lib::lemma_len_subset(keys.insert(nk), vstd::set_lib::set_int_range(0, len * a));
                        }
                    }
                    let component = if next_dc_node == target {
                        if stage < seq_len - 1 {
                            queue.push((stage + 1, node_id));
                        }
                        RouteNode::new_vnf(next_dc_node, stage)
                    } else {
                        queue.push((stage, node_id));
                        RouteNode::new_component(next_dc_node)
                    };
                    graph.push(component);
                    lookup[stage].insert(next_dc_node, node_id);
                    graph[curr].next_nodes.push(node_id);
                    proof {
                        let g1 = g0.push(component);
                        let g = graph@;
                        assert forall|j: int| 0 <= j < g0.len() implies #[trigger] g0[j].next_nodes@ == g1[j].next_nodes@
                            by {}
                        assert forall|j: int| 0 <= j < g1.len() && j != curr implies #[trigger] g1[j].next_nodes@
                            == g[j].next_nodes@ by {}
                        assert forall|n: usize| n < g.len() implies #[trigger] g[n as int].route_count == in_degree(g, n)
                            + (if n == 0 { 1nat } else { 0nat }) by {
                            lemma_edges_append_empty(g0, component, n);
                            if n == node_id {
                                lemma_edges_none(g0, n, g0.len() as int);
                            }
                            lemma_edges_push(g1, g, curr as int, node_id, n, g1.len() as int);
                        }
                        kst = kst.push(stage as int);
                        let newkey = stage * a + next_dc_node;
                        keys = keys.insert(newkey);
                        let lk = maps_view(lookup@);
                        assert(lk =~= lk0.update(stage as int, lk0[stage as int].insert(next_dc_node, node_id)));
                        assert forall|st: int, x: usize| 0 <= st < len && x < a implies (keys.contains(st * a + x)
                            <==> #[trigger] lk[st].contains_key(x)) by {
                            if keys.contains(st * a + x) && st * a + x == newkey {
                                lemma_key_unique(st, x as int, stage as int, next_dc_node as int, a);
                            }
                        }
                        assert forall|kk: int| #[trigger] keys.contains(kk) implies 0 <= kk < len * a by {
                            if kk == newkey {
                                assert(0 <= stage * a + next_dc_node < len * a) by (nonlinear_arith)
                                    requires 1 <= stage < len, 0 <= next_dc_node < a;
                            }
                        }
                        assert(g[curr as int].next_nodes@.no_duplicates()) by {
                            let l = g[curr as int].next_nodes@;
                            assert(g0[curr as int].next_nodes@.no_duplicates());
                            assert forall|i: int, j: int| 0 <= i < l.len() && 0 <= j < l.len() && i != j implies l[i] != l[j] by {
                                if j == k {
                                    assert(l[i] == g0[curr as int].next_nodes@[i]);
                                    assert(g0[curr as int].next_nodes@[i] < g0.len());
                                } else if i == k {
                                    assert(l[j] == g0[curr as int].next_nodes@[j]);
                                    assert(g0[curr as int].next_nodes@[j] < g0.len());
                                } else {
                                    assert(l[i] == g0[curr as int].next_nodes@[i]);
                                    assert(l[j] == g0[curr as int].next_nodes@[j]);
                                }
                            }
                        }
                        qidx = qidx.push(q0.len() as int);
                        assert forall|j: int| #![trigger g[j]] 0 <= j < g0.len() implies g[j].node_id == g0[j].node_id
                            && g[j].node_type == g0[j].node_type by {}
                        assert(g[curr as int].next_nodes@ == g0[curr as int].next_nodes@.push(node_id));
                        assert(g[curr as int].next_nodes@.drop_last() =~= g0[curr as int].next_nodes@);
                        assert(g[node_id as int] == component);
                        if next_dc_node == target {
                            assert(component.node_type == NodeType::VNF(stage));
                            if stage < seq_len - 1 {
                                assert(queue@ == q0.push(((stage + 1) as usize, node_id)));
                            } else {
                                assert(queue@ == q0);
                            }
                        } else {
                            assert(component.node_type == NodeType::Component);
                            assert(queue@ == q0.push((stage, node_id)));
                        }
                        assert forall|t: int| 0 <= t < q0.len() implies #[trigger] queue@[t] == q0[t] by {}
                        lemma_shape_step(g0, g, kst0, kst, qidx0, qidx, q0, queue@, head as int, sequence@, *dc,
                            curr as int, stage as int);
                        assert(g0[curr as int].node_type is VNF ==> kst0[curr as int]
                            == g0[curr as int].node_type->VNF_0 && g0[curr as int].node_id
                            == sequence@[g0[curr as int].node_type->VNF_0 as int]) by {
                            if curr == 0 {
                                assert(g0[0].node_type == NodeType::VNF(0));
                            } else if g0[curr as int].node_type is VNF {
                                assert(1 <= curr < g0.len());
                            }
                        }
                        assert(g.len() <= usize::MAX);
                        lemma_edge_level(g0, kst0, sequence@, *dc, curr as int, stage as int, k as int);
                        lemma_order_new(g0, g, kst0, kst, q0, queue@, head as int, curr as int, k as int,
                            stage as int, sequence@, *dc);
                    }
                },
            }
            k += 1;
        }
        proof {
            lemma_graph_bound(keys, len, a);
            let g = graph@;
            assert(leads_to(g, g[curr as int].next_nodes@, ns));
            lemma_order_end(g, kst, queue@, head as int, curr as int, sequence@, *dc);
            last = curr as int;
            assert(shape_inv(graph@, kst, qidx, queue@, head as int, sequence@, *dc, -1)) by {
                assert forall|n: int|
                    0 <= n < g.len() && n != -1 && heading(g[n], kst[n]) < len && #[trigger] qidx[n] < head implies leads_to(
                    g,
                    g[n].next_nodes@,
                    step_spec(*dc, g[n].node_id as int, sequence@[heading(g[n], kst[n])] as int),
                ) by {
                    if n == curr {
                        assert(ns == step_spec(*dc, g[n].node_id as int, sequence@[heading(g[n], kst[n])] as int));
                    }
                }
            }
        }
    }
    proof {
        let g = graph@;
        let st = Seq::new(g.len(), |n: int| heading(g[n], kst[n]));
        assert(shaped_by(g, sequence@, *dc, st)) by {
            assert(st[0] == 1);
            assert forall|n: int| 0 <= n < g.len() implies 1 <= #[trigger] st[n] <= len by {
                if n >= 1 {
                    assert(1 <= kst[n] < len);
                }
            }
            assert forall|n: int| 0 <= n < g.len() && #[trigger] st[n] < len implies leads_to(
                g,
                g[n].next_nodes@,
                step_spec(*dc, g[n].node_id as int, sequence@[st[n]] as int),
            ) by {
                assert(st[n] == heading(g[n], kst[n]));
                assert(0 <= qidx[n] < queue@.len());
            }
            assert forall|n: int| 0 <= n < g.len() && #[trigger] st[n] == len implies g[n].next_nodes@.len() == 0 by {
                assert(st[n] == heading(g[n], kst[n]));
            }
            assert forall|n: int, k: int| 0 <= n < g.len() && 0 <= k < g[n].next_nodes@.len() implies {
                let m = #[trigger] g[n].next_nodes@[k] as int;
                ||| g[m].node_type is Component && st[m] == st[n]
                ||| g[m].node_type == NodeType::VNF(st[n] as usize) && st[m] == st[n] + 1
            } by {
                let m = g[n].next_nodes@[k] as int;
                assert(1 <= m < g.len());
                assert(kst[m] == heading(g[n], kst[n]));
                assert(st[m] == heading(g[m], kst[m]));
                assert(st[n] == heading(g[n], kst[n]));
            }
            assert forall|n1: int, n2: int|
                0 <= n1 < n2 < g.len() && #[trigger] g[n1].node_type == #[trigger] g[n2].node_type && st[n1] == st[n2]
                    implies g[n1].node_id != g[n2].node_id by {
                assert(st[n1] == heading(g[n1], kst[n1]));
                assert(st[n2] == heading(g[n2], kst[n2]));
                if n1 >= 1 && g[n1].node_id == g[n2].node_id {
                    assert(kst[n1] == kst[n2]);
                    let lk = maps_view(lookup@);
                    assert(lk[kst[n1]][g[n1].node_id] == n1);
                    assert(lk[kst[n2]][g[n2].node_id] == n2);
                }
            }
        }
        assert(numbered_breadth_first(g)) by {
            reveal(order_inv);
        }
    }
    graph
}

} // verus!

verus! {

/// The route graphs of service chains, each with its service id.
pub fn build_routes(sequences: &Vec<(usize, Vec<usize>)>, dc: &FatTree) -> (routes: Vec<(usize, Vec<RouteNode>)>)
    requires
        forall|i: int| 0 <= i < sequences@.len() ==> route_args(#[trigger] sequences@[i].1@, *dc),
    ensures
        routes@.len() == sequences@.len(),
        forall|i: int|
            0 <= i < routes@.len() ==> {
                &&& #[trigger] routes@[i].0 == sequences@[i].0
                &&& route_graph(routes@[i].1@, sequences@[i].1@, *dc)
                &&& route_shape(routes@[i].1@, sequences@[i].1@, *dc)
                &&& numbered_breadth_first(routes@[i].1@)
            },
{
    let mut routes: Vec<(usize, Vec<RouteNode>)> = Vec::new();
    let mut i: usize = 0;
    while i < sequences.len()
        invariant
            i <= sequences@.len(),
            forall|i: int| 0 <= i < sequences@.len() ==> route_args(#[trigger] sequences@[i].1@, *dc),
            routes@.len() == i,
            forall|j: int|
                0 <= j < i ==> {
                    &&& #[trigger] routes@[j].0 == sequences@[j].0
                    &&& route_graph(routes@[j].1@, sequences@[j].1@, *dc)
                    &&& route_shape(routes@[j].1@, sequences@[j].1@, *dc)
                    &&& numbered_breadth_first(routes@[j].1@)
                },
        decreases sequences@.len() - i,
    {
        let s_id = sequences[i].0;
        let sequence = sequences[i].1.clone();
        proof {
            assert(route_args(sequences@[i as int].1@, *dc));
        }
        let route = find_routes(sequence, dc);
        routes.push((s_id, route));
        i += 1;
    }
    routes
}

} // verus!
