use std::collections::HashSet;

use alg::args::{split_run_range, test_sizes};
use alg::bfdsu::BfdsuState;
use alg::bfs::bfs;
use alg::binary::{to_normal_solution, BinaryInitialisation};
use alg::ca_operators::{ca_initial_solution, ca_mutation};
use alg::constraint_aware::{balance_apply, balance_census, expand_solution, none_or};
use alg::esp_vdce::set_subtract;
use alg::evaluation::{instances_per_service, total_route_length, used_on_server, used_vms};
use alg::fat_tree::FatTree;
use alg::instances::shuffled_queue;
use alg::mapping::{build_routes, find_routes, find_sequences, next_step};
use alg::model::{iterate_route, NodeType, RouteNode};
use alg::operators::{is_feasible, Constraint, InitPop};
use alg::previous::{reassign_positions, roulette_entry, roulette_fill};
use alg::service::{Service, VNF};
use alg::weights::{lattice_divisions, lattice_points};
use alg::standard::{
    cross_at_point, cross_with_mask, entry_for_draw, mutate_positions, one_point_crossover, uniform_crossover,
    uniform_solution,
};

fn vnf(id: usize, stage: usize, service_id: usize) -> VNF {
    VNF { id, stage, service_rate_bits: 1.0f64.to_bits(), queue_length: 10, service_id }
}

fn service(id: usize, vnfs: Vec<VNF>) -> Service {
    Service { id, prod_rate_bits: 2.0f64.to_bits(), vnfs }
}

/// Service 0: VNFs 0 and 1; service 1: VNF 2.
fn two_services() -> Vec<Service> {
    vec![service(0, vec![vnf(0, 0, 0), vnf(1, 1, 0)]), service(1, vec![vnf(2, 0, 1)])]
}

fn ids(solution: &Vec<Option<VNF>>) -> Vec<Option<usize>> {
    solution.iter().map(|v| v.map(|x| x.id)).collect()
}

fn service_ids(solution: &Vec<Option<Service>>) -> Vec<Option<usize>> {
    solution.iter().map(|s| s.as_ref().map(|x| x.id)).collect()
}

// ---- Fat tree ----

#[test]
fn fat_tree_sizes_k4() {
    let ft = FatTree::new(4, 2);
    assert_eq!(ft.num_servers(), 16);
    assert_eq!(ft.num_vms(), 32);
    assert_eq!(ft.num_edges(), 8);
    assert_eq!(ft.num_agg(), 8);
    assert_eq!(ft.num_core(), 4);
    assert_eq!(ft.num_all(), 68);
}

#[test]
fn fat_tree_layers_add_up() {
    let ft = FatTree::new(4, 2);
    let layers: Vec<usize> = (0..5).map(|l| ft.components_at_layer(l)).collect();
    assert_eq!(layers, vec![32, 16, 8, 8, 4]);
    assert_eq!(layers.iter().sum::<usize>(), ft.num_all());
}

#[test]
fn fat_tree_vm_and_server_ranges() {
    let ft = FatTree::new(4, 2);
    assert!(ft.is_vnf(0));
    assert!(ft.is_vnf(31));
    assert!(!ft.is_vnf(32));
    assert!(!ft.is_server(31));
    assert!(ft.is_server(32));
    assert!(ft.is_server(47));
    assert!(!ft.is_server(48));
    for node in 0..ft.num_all() {
        assert!(!(ft.is_vnf(node) && ft.is_server(node)));
    }
}

// ---- Next steps ----

#[test]
fn next_step_from_vm() {
    let ft = FatTree::new(4, 2);
    assert_eq!(next_step(5, 5, &ft), Vec::<usize>::new());
    assert_eq!(next_step(5, 7, &ft), vec![34]);
}

#[test]
fn next_step_from_server() {
    let ft = FatTree::new(4, 2);
    assert_eq!(next_step(34, 5, &ft), vec![5]);
    assert_eq!(next_step(34, 9, &ft), vec![49]);
}

#[test]
fn next_step_from_edge() {
    let ft = FatTree::new(4, 2);
    assert_eq!(next_step(49, 5, &ft), vec![34]);
    assert_eq!(next_step(49, 9, &ft), vec![56, 57]);
}

#[test]
fn next_step_from_agg() {
    let ft = FatTree::new(4, 2);
    assert_eq!(next_step(56, 5, &ft), vec![49]);
    assert_eq!(next_step(56, 9, &ft), vec![64, 66]);
}

#[test]
fn next_step_from_core() {
    let ft = FatTree::new(4, 2);
    assert_eq!(next_step(65, 20, &ft), vec![61]);
}

#[test]
fn next_steps_reach_destination_in_hops() {
    // Following the first next step from VM 0 to VM 20 (another pod) takes eight hops.
    let ft = FatTree::new(4, 2);
    let mut node = 0;
    let mut path = vec![node];
    loop {
        let steps = next_step(node, 20, &ft);
        if steps.is_empty() {
            break;
        }
        node = steps[0];
        path.push(node);
        assert!(path.len() <= 9);
    }
    assert_eq!(path, vec![0, 32, 48, 56, 64, 60, 53, 42, 20]);
}

// ---- Route graphs ----

#[test]
fn find_routes_same_server() {
    let ft = FatTree::new(4, 2);
    let graph = find_routes(vec![0, 1], &ft);
    assert_eq!(graph.len(), 3);
    assert_eq!(graph[0].node_type, NodeType::VNF(0));
    assert_eq!(graph[0].node_id, 0);
    assert_eq!(graph[0].next_nodes, vec![1]);
    assert_eq!(graph[1].node_type, NodeType::Component);
    assert_eq!(graph[1].node_id, 32);
    assert_eq!(graph[1].next_nodes, vec![2]);
    assert_eq!(graph[2].node_type, NodeType::VNF(1));
    assert_eq!(graph[2].node_id, 1);
    assert!(graph[2].next_nodes.is_empty());
    assert!(graph.iter().all(|n| n.route_count == 1));
}

#[test]
fn find_routes_shares_nodes_within_a_stage() {
    let ft = FatTree::new(4, 2);
    let graph = find_routes(vec![0, 4], &ft);
    let node_ids: Vec<usize> = graph.iter().map(|n| n.node_id).collect();
    assert_eq!(node_ids, vec![0, 32, 48, 56, 57, 49, 34, 4]);
    assert_eq!(graph[2].next_nodes, vec![3, 4]);
    assert_eq!(graph[3].next_nodes, vec![5]);
    assert_eq!(graph[4].next_nodes, vec![5]);
    assert_eq!(graph[5].route_count, 2);
    assert_eq!(graph[7].node_type, NodeType::VNF(1));
    let counts: Vec<u32> = graph.iter().map(|n| n.route_count).collect();
    assert_eq!(counts, vec![1, 1, 1, 1, 1, 2, 1, 1]);
}

#[test]
fn find_routes_three_stages() {
    // The chain returns to VM 0 after VM 1: the stage-2 part of the graph repeats components
    // already seen at stage 1.
    let ft = FatTree::new(4, 2);
    let graph = find_routes(vec![0, 1, 0], &ft);
    let node_ids: Vec<usize> = graph.iter().map(|n| n.node_id).collect();
    assert_eq!(node_ids, vec![0, 32, 1, 32, 0]);
    assert_eq!(graph[2].node_type, NodeType::VNF(1));
    assert_eq!(graph[4].node_type, NodeType::VNF(2));
    assert_eq!(graph[2].next_nodes, vec![3]);
}

#[test]
fn find_routes_one_vnf_node_per_stage() {
    let ft = FatTree::new(4, 2);
    let seq = vec![0, 4, 17, 2];
    let graph = find_routes(seq.clone(), &ft);
    for s in 0..seq.len() {
        let at: Vec<&RouteNode> = graph.iter().filter(|n| n.node_type == NodeType::VNF(s)).collect();
        assert_eq!(at.len(), 1);
        assert_eq!(at[0].node_id, seq[s]);
    }
    for (j, n) in graph.iter().enumerate() {
        assert_eq!(n.next_nodes.is_empty(), n.node_type == NodeType::VNF(seq.len() - 1));
        assert!(n.next_nodes.iter().all(|&m| m > j));
    }
}

#[test]
fn iterate_route_visits_every_node_once() {
    let ft = FatTree::new(4, 2);
    let graph = find_routes(vec![0, 4], &ft);
    let order = iterate_route(&graph);
    assert_eq!(order, vec![0, 1, 2, 3, 4, 5, 6, 7]);
}

#[test]
fn iterate_route_waits_for_all_arrivals() {
    // 0 -> {1, 2}, 1 -> 3, 2 -> 3: node 3 is visited only after both of its arrivals.
    let node = |id: usize, count: u32, next: Vec<usize>| RouteNode {
        node_type: NodeType::Component,
        node_id: id,
        route_count: count,
        next_nodes: next,
    };
    let graph = vec![node(0, 1, vec![1, 2]), node(1, 1, vec![3]), node(2, 1, vec![3]), node(3, 2, vec![])];
    assert_eq!(iterate_route(&graph), vec![0, 1, 2, 3]);
    // With a route count too high, the node is never visited.
    let graph = vec![node(0, 1, vec![1]), node(1, 2, vec![])];
    assert_eq!(iterate_route(&graph), vec![0]);
}

#[test]
fn new_route_nodes() {
    let c = RouteNode::new_component(7);
    assert_eq!(c.node_type, NodeType::Component);
    assert_eq!(c.node_id, 7);
    assert_eq!(c.route_count, 1);
    assert!(c.next_nodes.is_empty());
    let v = RouteNode::new_vnf(3, 2);
    assert_eq!(v.node_type, NodeType::VNF(2));
    assert_eq!(v.node_id, 3);
    assert_eq!(v.route_count, 1);
}

#[test]
fn build_routes_keeps_service_ids() {
    let ft = FatTree::new(4, 2);
    let routes = build_routes(&vec![(3, vec![0, 1]), (5, vec![0, 4])], &ft);
    assert_eq!(routes.len(), 2);
    assert_eq!(routes[0].0, 3);
    assert_eq!(routes[0].1.len(), 3);
    assert_eq!(routes[1].0, 5);
    assert_eq!(routes[1].1.len(), 8);
    assert_eq!(total_route_length(&routes), 11);
}

// ---- Service chains read off a placement ----

#[test]
fn find_sequences_nearest_instances() {
    let services = vec![service(0, vec![vnf(0, 0, 0), vnf(1, 1, 0)])];
    let a = Some(vnf(0, 0, 0));
    let b = Some(vnf(1, 1, 0));
    let solution = vec![a, None, b, None, a, b];
    let sequences = find_sequences(&solution, &services);
    assert_eq!(sequences, vec![(0, vec![0, 2]), (0, vec![4, 5])]);
}

#[test]
fn find_sequences_tie_prefers_lower_position() {
    let services = vec![service(0, vec![vnf(0, 0, 0), vnf(1, 1, 0)])];
    let a = Some(vnf(0, 0, 0));
    let b = Some(vnf(1, 1, 0));
    let solution = vec![None, b, a, b];
    assert_eq!(find_sequences(&solution, &services), vec![(0, vec![2, 1])]);
}

#[test]
fn find_sequences_drops_incomplete_chains() {
    let services = two_services();
    let solution = vec![Some(vnf(0, 0, 0)), Some(vnf(2, 0, 1)), None];
    assert_eq!(find_sequences(&solution, &services), vec![(1, vec![1])]);
}

// ---- Feasibility ----

#[test]
fn is_feasible_cases() {
    let ft = FatTree::new(2, 2);
    let vnfs = vec![vnf(0, 0, 0), vnf(1, 0, 1)];
    let a = Some(vnfs[0]);
    let b = Some(vnfs[1]);
    let no_aa = vec![false, false];
    let no_lim = vec![None, None];
    assert!(is_feasible(&vec![a, b, None, None], &ft, &vnfs, &no_aa, &no_lim));
    // A VNF that is not placed at all
    assert!(!is_feasible(&vec![a, None, None, None], &ft, &vnfs, &no_aa, &no_lim));
    // More positions than VMs
    assert!(!is_feasible(&vec![a, b, None, None, None], &ft, &vnfs, &no_aa, &no_lim));
    // Anti-affinity: service 0 shares server 0 with service 1
    let aa = vec![true, false];
    assert!(!is_feasible(&vec![a, b, None, None], &ft, &vnfs, &aa, &no_lim));
    assert!(is_feasible(&vec![a, None, b, None], &ft, &vnfs, &aa, &no_lim));
    // Instance limit: VNF 0 at most once
    let lim = vec![Some(1), None];
    assert!(!is_feasible(&vec![a, a, b, None], &ft, &vnfs, &no_aa, &lim));
    assert!(is_feasible(&vec![a, None, b, b], &ft, &vnfs, &no_aa, &lim));
}

#[test]
fn constraint_outcomes() {
    let f: Constraint<Vec<u32>> = Constraint::Feasible(vec![1, 2]);
    let i: Constraint<Vec<u32>> = Constraint::Infeasible;
    assert!(f.is_feasible());
    assert!(!i.is_feasible());
    assert_eq!(f.unwrap(), vec![1, 2]);
}

#[test]
fn none_or_cases() {
    assert!(none_or(&None::<usize>, |x: &usize| *x > 3));
    assert!(none_or(&Some(4usize), |x: &usize| *x > 3));
    assert!(!none_or(&Some(2usize), |x: &usize| *x > 3));
}

// ---- Expansion of intermediate solutions ----

#[test]
fn expand_solution_places_chains_first_feasible() {
    let ft = FatTree::new(2, 2);
    let services = two_services();
    let intm = vec![Some(services[0].clone()), None, Some(services[1].clone()), None];
    let (sequences, placement) = expand_solution(&intm, &ft, &services, &vec![false, false], &vec![None; 3], true);
    assert_eq!(sequences, vec![(0, vec![0, 1]), (1, vec![2])]);
    assert_eq!(ids(&placement), vec![Some(0), Some(1), Some(2), None]);
}

#[test]
fn expand_solution_reserves_servers_for_anti_affinity() {
    let ft = FatTree::new(2, 2);
    let services = two_services();
    let intm = vec![Some(services[1].clone()), None, Some(services[0].clone()), None];
    let aa = vec![true, false];
    let (sequences, placement) = expand_solution(&intm, &ft, &services, &aa, &vec![None; 3], true);
    // Service 0 reserves both servers; service 1 finds no VM left to it.
    assert_eq!(sequences, vec![(0, vec![1, 2])]);
    assert_eq!(ids(&placement), vec![None, Some(0), Some(1), None]);
    let vnfs = vec![vnf(0, 0, 0), vnf(1, 1, 0), vnf(2, 0, 1)];
    assert!(!is_feasible(&placement, &ft, &vnfs, &aa, &vec![None; 3]));
}

#[test]
fn expand_solution_without_constraint_handling() {
    let ft = FatTree::new(2, 2);
    let services = two_services();
    let intm = vec![Some(services[1].clone()), None, Some(services[0].clone()), None];
    let aa = vec![true, false];
    let (sequences, placement) = expand_solution(&intm, &ft, &services, &aa, &vec![None; 3], false);
    assert_eq!(sequences, vec![(1, vec![0]), (0, vec![1, 2])]);
    assert_eq!(ids(&placement), vec![Some(2), Some(0), Some(1), None]);
    let vnfs = vec![vnf(0, 0, 0), vnf(1, 1, 0), vnf(2, 0, 1)];
    // Server 0 hosts both services although service 0 asks for anti-affinity.
    assert!(!is_feasible(&placement, &ft, &vnfs, &aa, &vec![None; 3]));
}

#[test]
fn expand_solution_instance_limit_zero() {
    let ft = FatTree::new(2, 2);
    let services = two_services();
    let intm = vec![Some(services[0].clone()), None, None, None];
    let (sequences, placement) =
        expand_solution(&intm, &ft, &services, &vec![false, false], &vec![None, Some(0), None], true);
    // VNF 1 may not be instantiated: the chain keeps VNF 0 only.
    assert_eq!(sequences, vec![(0, vec![0])]);
    assert_eq!(ids(&placement), vec![Some(0), None, None, None]);
}

#[test]
fn expand_solution_uses_up_instance_limit() {
    let ft = FatTree::new(2, 2);
    let services = two_services();
    let intm = vec![Some(services[0].clone()), None, Some(services[0].clone()), None];
    let (sequences, placement) =
        expand_solution(&intm, &ft, &services, &vec![false, false], &vec![Some(1), None, None], true);
    // VNF 0 may run once: the second chain gets VNF 1 only.
    assert_eq!(sequences, vec![(0, vec![0, 1]), (0, vec![3])]);
    assert_eq!(ids(&placement), vec![Some(0), Some(1), None, Some(1)]);
}

#[test]
fn balance_census_counts() {
    let services = two_services();
    let intm = vec![Some(services[0].clone()), None, Some(services[1].clone()), Some(services[0].clone())];
    let (free, placed, count) = balance_census(&intm, &services);
    assert_eq!(free, vec![1]);
    assert_eq!(placed, vec![(0, 0, 1), (2, 1, 1), (3, 0, 2)]);
    assert_eq!(count, vec![2, 1]);
}

#[test]
fn balance_apply_fills_missing_service() {
    let ft = FatTree::new(2, 2);
    let services = two_services();
    let mut intm = vec![Some(services[0].clone()), None, None, None];
    let (free, placed, count) = balance_census(&intm, &services);
    let ranked: Vec<(usize, usize, bool)> = placed.iter().map(|&(p, s, _)| (p, s, false)).collect();
    balance_apply(&mut intm, &ft, &services, &vec![false, false], &free, &count, &ranked);
    assert_eq!(service_ids(&intm), vec![Some(0), None, None, Some(1)]);
}

#[test]
fn balance_apply_trims_overfull_solution() {
    let ft = FatTree::new(2, 2);
    let services = two_services();
    let s0 = Some(services[0].clone());
    let mut intm = vec![s0.clone(), s0.clone(), s0.clone(), None];
    let (free, _, count) = balance_census(&intm, &services);
    let ranked = vec![(0, 0, false), (1, 0, false), (2, 0, false)];
    balance_apply(&mut intm, &ft, &services, &vec![false, false], &free, &count, &ranked);
    assert_eq!(service_ids(&intm), vec![Some(0), None, None, Some(1)]);
}

#[test]
fn balance_apply_stops_at_infinite_contribution() {
    let ft = FatTree::new(2, 2);
    let services = two_services();
    let s0 = Some(services[0].clone());
    let mut intm = vec![s0.clone(), s0.clone(), s0.clone(), None];
    let (free, _, count) = balance_census(&intm, &services);
    let ranked = vec![(0, 0, false), (1, 0, false), (2, 0, true)];
    balance_apply(&mut intm, &ft, &services, &vec![false, false], &free, &count, &ranked);
    assert_eq!(service_ids(&intm), vec![Some(0), Some(0), Some(0), Some(1)]);
}

// ---- Heuristic placements ----

#[test]
fn round_robin_single_instance() {
    let services = vec![service(0, vec![vnf(0, 0, 0), vnf(1, 1, 0)])];
    let solutions = alg::round_robin::run(&vec![vec![1]], &services, 2, 2, 1);
    assert_eq!(solutions.len(), 1);
    assert_eq!(ids(&solutions[0]), vec![Some(0), Some(1), None, None]);
}

#[test]
fn round_robin_fills_first_two_slots_then_alternates() {
    // Three servers of three VMs, nine VNFs of one service: first two slots server by server,
    // then the third slots in reverse server order.
    let vnfs: Vec<VNF> = (0..9).map(|i| vnf(i, i, 0)).collect();
    let services = vec![service(0, vnfs)];
    let solutions = alg::round_robin::run(&vec![vec![1]], &services, 3, 3, 1);
    assert_eq!(
        ids(&solutions[0]),
        vec![Some(0), Some(1), Some(8), Some(2), Some(3), Some(7), Some(4), Some(5), Some(6)]
    );
}

#[test]
fn bfs_fills_vms_in_order() {
    let services = vec![service(0, vec![vnf(0, 0, 0), vnf(1, 1, 0)])];
    let solution = bfs(&services, 2, 2, 2);
    assert_eq!(ids(&solution), vec![Some(0), Some(1), Some(0), Some(1)]);
    let solution = bfs(&services, 3, 2, 2);
    assert_eq!(ids(&solution), vec![Some(0), Some(1), Some(0), Some(1)]);
}

#[test]
fn esp_vdce_places_every_vnf_when_room() {
    let ft = FatTree::new(2, 2);
    let services = two_services();
    let solutions = alg::esp_vdce::run(&vec![vec![1, 1]], &services, &ft, 2, 1);
    assert_eq!(solutions.len(), 1);
    let sol = &solutions[0];
    assert_eq!(sol.len(), 4);
    let mut placed: Vec<usize> = sol.iter().filter_map(|v| v.map(|x| x.id)).collect();
    placed.sort();
    assert_eq!(placed, vec![0, 1, 2]);
}

#[test]
fn esp_vdce_fills_the_fullest_server_first() {
    let ft = FatTree::new(2, 2);
    let services = vec![service(0, vec![vnf(0, 0, 0)]), service(1, vec![vnf(1, 0, 1)])];
    let solutions = alg::esp_vdce::run(&vec![vec![1, 1]], &services, &ft, 2, 1);
    let sol = &solutions[0];
    // The first VNF opens server 0; the second joins it there rather than take the empty server.
    assert!(sol[0].is_some() && sol[1].is_some());
    assert!(sol[2].is_none() && sol[3].is_none());
}

#[test]
fn shuffled_queue_holds_the_instances() {
    let services = two_services();
    let mut rng = rand::thread_rng();
    let q = shuffled_queue(&vec![2, 1], &services, &mut rng);
    let mut q_ids: Vec<usize> = q.iter().map(|v| v.id).collect();
    q_ids.sort();
    assert_eq!(q_ids, vec![0, 0, 1, 1, 2]);
}

#[test]
fn bfdsu_state_places_on_servers() {
    let mut st = BfdsuState::new(2, 2);
    assert_eq!(st.solution.len(), 4);
    assert_eq!(st.spare, vec![0, 1]);
    assert_eq!(st.candidates(), vec![0, 1]);
    st.place(1, Some(vnf(0, 0, 0)));
    assert_eq!(ids(&st.solution), vec![None, None, Some(0), None]);
    assert_eq!(st.capacities, vec![2, 1]);
    assert_eq!(st.spare, vec![0]);
    assert_eq!(st.used, vec![1]);
    assert_eq!(st.candidates(), vec![1]);
    st.place(1, Some(vnf(1, 1, 0)));
    assert_eq!(ids(&st.solution), vec![None, None, Some(0), Some(1)]);
    assert_eq!(st.candidates(), vec![0]);
}

#[test]
fn bfdsu_state_fills_every_server() {
    // Servers 0, 0, 1: server 0 is used and full, server 1 is used with a VM free.
    let mut st = BfdsuState::new(2, 2);
    st.place(0, Some(vnf(0, 0, 0)));
    assert_eq!(st.used, vec![0]);
    assert_eq!(st.spare, vec![1]);
    st.place(0, Some(vnf(1, 1, 0)));
    assert_eq!(st.candidates(), vec![1]);
    st.place(1, Some(vnf(2, 0, 1)));
    assert_eq!(st.used, vec![0, 1]);
    assert_eq!(st.candidates(), vec![1]);
    st.place(1, Some(vnf(3, 0, 1)));
    assert!(st.candidates().is_empty());
    assert_eq!(ids(&st.solution), vec![Some(0), Some(1), Some(2), Some(3)]);
}

// ---- Binary solutions ----

#[test]
fn to_normal_solution_assigns_servers_in_order() {
    let ft = FatTree::new(2, 2);
    let vnfs = vec![vnf(0, 0, 0), vnf(1, 0, 1)];
    let normal = to_normal_solution(&vec![Some(()), Some(()), None, Some(())], &ft, &vnfs);
    assert_eq!(ids(&normal), vec![Some(0), Some(1), Some(1), None]);
}

#[test]
fn to_normal_solution_skips_full_servers() {
    let ft = FatTree::new(2, 1);
    let vnfs = vec![vnf(0, 0, 0), vnf(1, 0, 1)];
    let normal = to_normal_solution(&vec![Some(()), Some(()), None, Some(())], &ft, &vnfs);
    assert_eq!(ids(&normal), vec![Some(0), Some(1)]);
}

#[test]
fn binary_initialisation_lengths() {
    let init = BinaryInitialisation::new(7);
    let population = init.apply(5);
    assert_eq!(population.len(), 5);
    assert!(population.iter().all(|s| s.len() == 7));
}

// ---- Arguments ----

#[test]
fn test_size_groups() {
    assert_eq!(test_sizes(1), vec![12, 16, 20]);
    assert_eq!(test_sizes(2), vec![24, 28]);
    assert_eq!(test_sizes(3), vec![32]);
    assert_eq!(test_sizes(0), vec![12, 16, 20, 24, 28, 32]);
}

#[test]
fn split_run_ranges_tile() {
    assert_eq!(split_run_range(10, 3, 0), (0, 3));
    assert_eq!(split_run_range(10, 3, 1), (3, 6));
    assert_eq!(split_run_range(10, 3, 2), (6, 9));
}

// ---- Sets ----

#[test]
fn set_subtract_removes_elements() {
    let mut a: HashSet<usize> = [1, 2, 3].iter().cloned().collect();
    let b: HashSet<usize> = [2, 5].iter().cloned().collect();
    set_subtract(&mut a, &b);
    let expected: HashSet<usize> = [1, 3].iter().cloned().collect();
    assert_eq!(a, expected);
}

// ---- Services ----

#[test]
fn service_first_and_clone() {
    let services = two_services();
    assert_eq!(services[0].first().id, 0);
    let c = services[0].clone();
    assert_eq!(c.id, 0);
    assert_eq!(c.prod_rate_bits, services[0].prod_rate_bits);
    assert_eq!(c.vnfs, services[0].vnfs);
}

#[test]
fn vnfs_equal_by_id() {
    let a = vnf(3, 0, 0);
    let mut b = vnf(3, 1, 2);
    b.queue_length = 99;
    assert_eq!(a, b);
    assert_ne!(a, vnf(4, 0, 0));
}

// ---- Variation operators ----

#[test]
fn cross_at_point_exchanges_tails() {
    let p1 = vec![Some(1u32), Some(2), Some(3), None];
    let p2 = vec![Some(5u32), None, Some(7), Some(8)];
    let children = cross_at_point(&p1, &p2, 2);
    assert_eq!(children[0], vec![Some(1), Some(2), Some(7), Some(8)]);
    assert_eq!(children[1], vec![Some(5), None, Some(3), None]);
}

#[test]
fn cross_with_mask_follows_mask() {
    let p1 = vec![Some(1u32), Some(2), Some(3)];
    let p2 = vec![Some(5u32), None, Some(7)];
    let children = cross_with_mask(&p1, &p2, &vec![true, false, false]);
    assert_eq!(children[0], vec![Some(1), None, Some(7)]);
    assert_eq!(children[1], vec![Some(5), Some(2), Some(3)]);
}

#[test]
fn random_crossovers_take_each_entry_from_a_parent() {
    let p1 = vec![Some(1u32), Some(2), Some(3), Some(4)];
    let p2 = vec![Some(5u32), Some(6), Some(7), Some(8)];
    let mut rng = rand::thread_rng();
    for _ in 0..20 {
        let u = uniform_crossover(&p1, &p2, &mut rng);
        let o = one_point_crossover(&p1, &p2, &mut rng);
        for children in [u, o].iter() {
            assert_eq!(children.len(), 2);
            for i in 0..4 {
                let pair = (children[0][i], children[1][i]);
                assert!(pair == (p1[i], p2[i]) || pair == (p2[i], p1[i]));
            }
        }
    }
}

#[test]
fn one_point_crossover_swaps_last_entry() {
    // The point is drawn below the length, so the last entry always comes from the other parent.
    let p1 = vec![Some(1u32), Some(2)];
    let p2 = vec![Some(5u32), Some(6)];
    let mut rng = rand::thread_rng();
    for _ in 0..20 {
        let children = one_point_crossover(&p1, &p2, &mut rng);
        assert_eq!(children[0][1], Some(6));
        assert_eq!(children[1][1], Some(2));
    }
}

#[test]
fn entry_for_draw_cases() {
    let chars = vec![10u32, 20, 30];
    assert_eq!(entry_for_draw(&chars, 0), None);
    assert_eq!(entry_for_draw(&chars, 1), Some(10));
    assert_eq!(entry_for_draw(&chars, 3), Some(30));
}

#[test]
fn uniform_solution_draws_from_characters() {
    let chars = vec![10u32, 20, 30];
    let mut rng = rand::thread_rng();
    let s = uniform_solution(&chars, 50, &mut rng);
    assert_eq!(s.len(), 50);
    assert!(s.iter().all(|e| e.map_or(true, |c| chars.contains(&c))));
    let empty: Vec<u32> = Vec::new();
    let s = uniform_solution(&empty, 5, &mut rng);
    assert_eq!(s, vec![None; 5]);
}

#[test]
fn mutate_positions_keeps_unmarked_entries() {
    let chars = vec![10u32, 20];
    let sol = vec![Some(99u32), None, Some(98)];
    let mut rng = rand::thread_rng();
    let m = mutate_positions(&sol, &chars, &vec![false, true, false], &mut rng);
    assert_eq!(m[0], Some(99));
    assert_eq!(m[2], Some(98));
    assert!(m[1].map_or(true, |c| chars.contains(&c)));
}

#[test]
fn roulette_fill_draws_without_replacement() {
    let roulette = vec![vnf(0, 0, 0), vnf(1, 1, 0), vnf(2, 0, 1)];
    let mut rng = rand::thread_rng();
    let vms = roulette_fill(roulette.clone(), 5, &mut rng);
    assert_eq!(vms.len(), 5);
    assert!(vms[3].is_none() && vms[4].is_none());
    let mut drawn: Vec<usize> = vms.iter().filter_map(|v| v.map(|x| x.id)).collect();
    drawn.sort();
    assert_eq!(drawn, vec![0, 1, 2]);
    let vms = roulette_fill(roulette, 2, &mut rng);
    assert_eq!(vms.len(), 2);
    assert!(vms.iter().all(|v| v.is_some()));
    assert_ne!(vms[0].unwrap().id, vms[1].unwrap().id);
}

#[test]
fn reassign_positions_draws_from_roulette() {
    let roulette = vec![vnf(5, 0, 0)];
    let sol = vec![Some(vnf(0, 0, 0)), None, Some(vnf(1, 1, 0))];
    let mut rng = rand::thread_rng();
    let new = reassign_positions(&sol, &roulette, &vec![true, true, false], &mut rng);
    assert_eq!(new.len(), 3);
    assert_eq!(new[2].unwrap().id, 1);
    assert!(new[0].map_or(true, |v| v.id == 5));
    assert!(new[1].map_or(true, |v| v.id == 5));
}

#[test]
fn roulette_entry_by_draw() {
    let roulette = vec![vnf(5, 0, 0), vnf(6, 1, 0)];
    assert_eq!(roulette_entry(&roulette, 0).unwrap().id, 5);
    assert_eq!(roulette_entry(&roulette, 1).unwrap().id, 6);
    assert!(roulette_entry(&roulette, 2).is_none());
}

#[test]
fn reassign_positions_always_fills_from_a_long_roulette() {
    // The draws run up to the solution's length, which every roulette index here covers.
    let roulette = vec![vnf(5, 0, 0), vnf(6, 1, 0), vnf(7, 0, 1)];
    let sol = vec![None, None];
    let mut rng = rand::thread_rng();
    for _ in 0..20 {
        let new = reassign_positions(&sol, &roulette, &vec![true, true], &mut rng);
        assert!(new.iter().all(|v| v.map_or(false, |x| x.id >= 5 && x.id <= 7)));
    }
}

#[test]
fn ca_initial_solution_counts() {
    let services = two_services();
    let mut rng = rand::thread_rng();
    let sol = ca_initial_solution(&services, 6, 2, &mut rng);
    assert_eq!(sol.len(), 6);
    let mut counts = [0usize; 2];
    let mut empty = 0;
    for s in &sol {
        match s {
            Some(x) => counts[x.id] += 1,
            None => empty += 1,
        }
    }
    assert_eq!(counts, [2, 2]);
    assert_eq!(empty, 2);
    // More instances than slots: the solution grows to hold them all.
    let sol = ca_initial_solution(&services, 3, 2, &mut rng);
    assert_eq!(sol.len(), 4);
    assert!(sol.iter().all(|s| s.is_some()));
}

#[test]
fn ca_mutation_without_mutation_copies() {
    let services = two_services();
    let sol = vec![Some(services[0].clone()), None, Some(services[1].clone())];
    let mut rng = rand::thread_rng();
    let new = ca_mutation(&sol, &services, &vec![false, false, false], &mut rng);
    assert_eq!(service_ids(&new), vec![Some(0), None, Some(1)]);
}

#[test]
fn ca_mutation_outcomes_are_swaps_or_toggles() {
    let services = two_services();
    let sol = vec![None, Some(services[1].clone())];
    let mut rng = rand::thread_rng();
    for _ in 0..30 {
        let new = ca_mutation(&sol, &services, &vec![true, false], &mut rng);
        let got = service_ids(&new);
        // Position 0 is mutated: a swap with itself keeps it empty, a swap with position 1
        // exchanges the two, or a service is added.
        assert!(
            got == vec![None, Some(1)]
                || got == vec![Some(1), None]
                || got == vec![Some(0), Some(1)]
                || got == vec![Some(1), Some(1)]
        );
    }
}

#[test]
fn ca_mutation_swaps_in_place() {
    let services = two_services();
    let sol = vec![Some(services[0].clone()), Some(services[1].clone())];
    let mut rng = rand::thread_rng();
    let mut swapped = false;
    for _ in 0..80 {
        let new = ca_mutation(&sol, &services, &vec![true, false], &mut rng);
        let got = service_ids(&new);
        // A swap with position 1 exchanges the two services; the untouched position 1 keeps
        // what the swap put there.
        assert!(got == vec![Some(0), Some(1)] || got == vec![Some(1), Some(0)] || got == vec![None, Some(1)]);
        swapped = swapped || got == vec![Some(1), Some(0)];
    }
    assert!(swapped);
}

#[test]
fn ca_mutation_without_services_leaves_empty_slots_alone() {
    let services = two_services();
    let sol = vec![None, Some(services[1].clone())];
    let mut rng = rand::thread_rng();
    for _ in 0..30 {
        let new = ca_mutation(&sol, &vec![], &vec![false, true], &mut rng);
        let got = service_ids(&new);
        // Position 1 is swapped (with itself or the empty slot) or emptied; nothing is added.
        assert!(got == vec![None, Some(1)] || got == vec![Some(1), None] || got == vec![None, None]);
    }
}

// ---- Evaluation counts ----

#[test]
fn used_vm_counts() {
    let a = Some(vnf(0, 0, 0));
    let sol = vec![a, None, a, a, None, None];
    assert_eq!(used_vms(&sol), 3);
    assert_eq!(used_on_server(&sol, 2, 0), 1);
    assert_eq!(used_on_server(&sol, 2, 3), 2);
    assert_eq!(used_on_server(&sol, 2, 5), 0);
}

#[test]
fn instances_per_service_counts_routes() {
    let ft = FatTree::new(4, 2);
    let routes = build_routes(&vec![(1, vec![0, 1]), (0, vec![0, 4]), (1, vec![2, 3])], &ft);
    assert_eq!(instances_per_service(&routes, 3), vec![1, 2, 0]);
}

// ---- Weight lattice ----

#[test]
fn lattice_divisions_pick_nearest_size() {
    assert_eq!(lattice_divisions(10), 5);
    assert_eq!(lattice_divisions(28), 6);
    assert_eq!(lattice_divisions(32), 7);
    assert_eq!(lattice_divisions(36), 7);
    assert_eq!(lattice_divisions(91), 12);
    assert_eq!(lattice_divisions(577), 32);
}

#[test]
fn lattice_points_sum_to_divisions() {
    let points = lattice_points(2);
    assert_eq!(points, vec![(0, 0, 2), (0, 1, 1), (0, 2, 0), (1, 0, 1), (1, 1, 0), (2, 0, 0)]);
    let points = lattice_points(lattice_divisions(36));
    assert_eq!(points.len(), 36);
    assert!(points.iter().all(|&(i, j, k)| i + j + k == 7));
}

#[test]
fn walk_of_a_route_graph_visits_all_nodes() {
    // Chains across pods and back: every node of the route graph is visited exactly once.
    let ft = FatTree::new(4, 2);
    for sequence in [vec![0, 20, 5], vec![3, 3, 30], vec![31, 0, 16, 17]].iter() {
        let graph = find_routes(sequence.clone(), &ft);
        let mut order = iterate_route(&graph);
        order.sort();
        assert_eq!(order, (0..graph.len()).collect::<Vec<usize>>());
    }
}

#[test]
fn route_graph_edges_follow_next_steps() {
    // Each node's successors are the components that next_step gives towards the VM of the
    // stage the node heads for.
    let ft = FatTree::new(4, 2);
    let sequence = vec![0, 20];
    let graph = find_routes(sequence.clone(), &ft);
    for node in graph.iter() {
        if node.node_type == NodeType::VNF(1) {
            assert!(node.next_nodes.is_empty());
            continue;
        }
        let successors: Vec<usize> = node.next_nodes.iter().map(|&m| graph[m].node_id).collect();
        assert_eq!(successors, next_step(node.node_id, 20, &ft));
    }
}

#[test]
fn vnfs_hash_by_id() {
    let mut set = HashSet::new();
    set.insert(vnf(3, 0, 0));
    set.insert(vnf(3, 1, 2));
    set.insert(vnf(4, 0, 0));
    assert_eq!(set.len(), 2);
}

#[test]
fn expand_solution_on_odd_port_count() {
    // Three ports per switch: six servers of one VM each.
    let ft = FatTree::new(3, 1);
    assert_eq!(ft.num_vms(), 6);
    let services = two_services();
    let intm = vec![Some(services[0].clone()), None, Some(services[1].clone()), None, None, None];
    let (sequences, placement) = expand_solution(&intm, &ft, &services, &vec![false, false], &vec![None; 3], true);
    assert_eq!(sequences, vec![(0, vec![0, 1]), (1, vec![2])]);
    assert_eq!(ids(&placement), vec![Some(0), Some(1), Some(2), None, None, None]);
}
