use s2::s1::angle::{Angle, E7};
use tobmap::graph::{Edge, Graph, GraphNode, Interaction};
use tobmap::graphbuild::{build_graph, OsmNode, OsmWay};
use tobmap::route::{
    adjacent_edges, edge_cost, interaction_cost, MyRouteService, RouteError, RoutePath,
    RouteRequest,
};
use tobmap::clock::Deadline;
use tobmap::search::{min_entry, shortest_route, shortest_route_until, Expired};

fn node(id: i64, lat_e7: i32, lng_e7: i32) -> OsmNode {
    OsmNode { id, lat_e7, lng_e7, tags: Vec::new() }
}

fn signal_node(id: i64, lat_e7: i32, lng_e7: i32, kind: &str) -> OsmNode {
    OsmNode { id, lat_e7, lng_e7, tags: vec![("highway".to_string(), kind.to_string())] }
}

fn road(id: i64, nodes: &[i64]) -> OsmWay {
    OsmWay {
        id,
        nodes: nodes.to_vec(),
        tags: vec![("highway".to_string(), "residential".to_string())],
    }
}

/// The index of the edge between the nodes of the given cells.
fn edge_between(g: &Graph, cells: &[u64], a: u64, b: u64) -> u32 {
    let ia = cells.iter().position(|c| *c == a).unwrap() as u32;
    let ib = cells.iter().position(|c| *c == b).unwrap() as u32;
    let (lo, hi) = if ia < ib { (ia, ib) } else { (ib, ia) };
    g.edges
        .iter()
        .position(|e| e.point_1_node_idx == lo && e.point_2_node_idx == hi)
        .unwrap() as u32
}

fn leaf(n: &OsmNode) -> u64 {
    s2::cellid::CellID::from(s2::latlng::LatLng::new(
        Angle::from(E7(n.lat_e7)),
        Angle::from(E7(n.lng_e7)),
    ))
    .0
}

fn path_cost(g: &Graph, p: &RoutePath) -> u32 {
    let mut c: u32 = 0;
    for i in 0..p.nodes.len() {
        let step = edge_cost(g, p.edges[i + 1])
            .saturating_add(interaction_cost(g, p.nodes[i], p.edges[i], p.edges[i + 1]));
        c = c.saturating_add(step);
    }
    c
}

fn check_path(g: &Graph, p: &RoutePath, start: u32, end: u32) {
    assert_eq!(p.edges.len(), p.nodes.len() + 1);
    assert_eq!(p.edges[0], start);
    assert_eq!(*p.edges.last().unwrap(), end);
    for i in 0..p.nodes.len() {
        let a = g.edges[p.edges[i] as usize];
        let b = g.edges[p.edges[i + 1] as usize];
        let n = p.nodes[i];
        assert!(n == a.point_1_node_idx || n == a.point_2_node_idx);
        assert!(n == b.point_1_node_idx || n == b.point_2_node_idx);
        if !b.backwards_allowed() {
            assert_eq!(n, b.point_1_node_idx);
        }
        if !a.backwards_allowed() {
            assert_eq!(n, a.point_2_node_idx);
        }
    }
}

/// Z - A, then A - C - B and A - D - B, then B - Y. The second branch is longer.
fn two_branches(signal_at_c: bool) -> (Vec<OsmNode>, Vec<OsmWay>) {
    let c = if signal_at_c {
        signal_node(3, 400_100_000, 100_100_000, "traffic_signals")
    } else {
        node(3, 400_100_000, 100_100_000)
    };
    let nodes = vec![
        node(1, 400_000_000, 100_000_000),
        node(2, 400_200_000, 100_000_000),
        c,
        node(4, 400_100_000, 99_850_000),
        node(8, 399_900_000, 100_000_000),
        node(9, 400_300_000, 100_000_000),
    ];
    let ways = vec![
        road(20, &[8, 1]),
        road(21, &[1, 3]),
        road(22, &[3, 2]),
        road(23, &[1, 4]),
        road(24, &[4, 2]),
        road(25, &[2, 9]),
    ];
    (nodes, ways)
}

#[test]
fn k_paths_are_edge_disjoint() {
    let (nodes, ways) = two_branches(false);
    let b = build_graph(&nodes, &ways).unwrap();
    let g = b.graph.clone();
    let cells = b.locations.node_cells.clone();
    let s = edge_between(&g, &cells, leaf(&nodes[4]), leaf(&nodes[0]));
    let t = edge_between(&g, &cells, leaf(&nodes[1]), leaf(&nodes[5]));
    let svc = MyRouteService::new(g.clone());
    let paths = svc.find_paths(s, t, 2).unwrap();
    assert_eq!(paths.len(), 2);
    for p in &paths {
        check_path(&g, p, s, t);
    }
    let inner0: Vec<u32> = paths[0].edges[1..paths[0].edges.len() - 1].to_vec();
    let inner1: Vec<u32> = paths[1].edges[1..paths[1].edges.len() - 1].to_vec();
    assert!(!inner0.is_empty() && !inner1.is_empty());
    for e in &inner1 {
        assert!(!inner0.contains(e));
    }
    assert!(path_cost(&g, &paths[0]) <= path_cost(&g, &paths[1]));
}

#[test]
fn signal_adds_interaction_cost() {
    let (nodes, ways) = two_branches(true);
    let b = build_graph(&nodes, &ways).unwrap();
    let g = b.graph.clone();
    let cells = b.locations.node_cells.clone();
    let ia = edge_between(&g, &cells, leaf(&nodes[0]), leaf(&nodes[2]));
    let ib = edge_between(&g, &cells, leaf(&nodes[2]), leaf(&nodes[1]));
    let n = cells.iter().position(|c| *c == leaf(&nodes[2])).unwrap() as u32;
    assert_eq!(interaction_cost(&g, n, ia, ib), 32);
    let (plain_nodes, plain_ways) = two_branches(false);
    let pb = build_graph(&plain_nodes, &plain_ways).unwrap();
    let pg = pb.graph.clone();
    let pcells = pb.locations.node_cells.clone();
    let pa = edge_between(&pg, &pcells, leaf(&plain_nodes[0]), leaf(&plain_nodes[2]));
    let pbb = edge_between(&pg, &pcells, leaf(&plain_nodes[2]), leaf(&plain_nodes[1]));
    let pn = pcells.iter().position(|c| *c == leaf(&plain_nodes[2])).unwrap() as u32;
    assert_eq!(interaction_cost(&pg, pn, pa, pbb), 2);
    // The same route through the signalled node costs 30 more: 32 instead of 2.
    let s = edge_between(&g, &cells, leaf(&nodes[4]), leaf(&nodes[0]));
    let t = edge_between(&g, &cells, leaf(&nodes[1]), leaf(&nodes[5]));
    let via = RoutePath {
        edges: vec![s, ia, ib, t],
        nodes: vec![
            cells.iter().position(|c| *c == leaf(&nodes[0])).unwrap() as u32,
            n,
            cells.iter().position(|c| *c == leaf(&nodes[1])).unwrap() as u32,
        ],
    };
    let ps = edge_between(&pg, &pcells, leaf(&plain_nodes[4]), leaf(&plain_nodes[0]));
    let pt = edge_between(&pg, &pcells, leaf(&plain_nodes[1]), leaf(&plain_nodes[5]));
    let plain_via = RoutePath {
        edges: vec![ps, pa, pbb, pt],
        nodes: vec![
            pcells.iter().position(|c| *c == leaf(&plain_nodes[0])).unwrap() as u32,
            pn,
            pcells.iter().position(|c| *c == leaf(&plain_nodes[1])).unwrap() as u32,
        ],
    };
    assert_eq!(path_cost(&g, &via), path_cost(&pg, &plain_via) + 30);
}

#[test]
fn unreachable_gives_no_paths() {
    let nodes = vec![
        node(1, 100_000_000, 100_000_000),
        node(2, 100_100_000, 100_000_000),
        node(3, 300_000_000, 100_000_000),
        node(4, 300_100_000, 100_000_000),
    ];
    let ways = vec![road(1, &[1, 2]), road(2, &[3, 4])];
    let b = build_graph(&nodes, &ways).unwrap();
    let svc = MyRouteService::new(b.graph.clone());
    let paths = svc.find_paths(0, 1, 3).unwrap();
    assert!(paths.is_empty());
    let resp = svc
        .route(RouteRequest { start_edge_idx: 0, end_edge_idx: 1, num_paths: None })
        .unwrap();
    assert!(resp.paths.is_empty());
}

#[test]
fn route_to_itself_is_one_edge() {
    let (nodes, ways) = two_branches(false);
    let b = build_graph(&nodes, &ways).unwrap();
    let svc = MyRouteService::new(b.graph.clone());
    let paths = svc.find_paths(2, 2, 3).unwrap();
    assert_eq!(paths.len(), 1);
    assert_eq!(paths[0].edges, vec![2]);
    assert!(paths[0].nodes.is_empty());
    assert!(svc.find_paths(2, 2, 0).unwrap().is_empty());
}

#[test]
fn route_errors() {
    let svc = MyRouteService::default();
    let r = svc.route(RouteRequest { start_edge_idx: 0, end_edge_idx: 0, num_paths: Some(1) });
    assert_eq!(r.err(), Some(RouteError::NotLoaded));
    let (nodes, ways) = two_branches(false);
    let b = build_graph(&nodes, &ways).unwrap();
    let n = b.graph.edges.len() as u32;
    let svc = MyRouteService::new(b.graph.clone());
    assert_eq!(svc.find_paths(0, n, 1).err(), Some(RouteError::InvalidEdge));
    assert_eq!(svc.find_paths(n + 5, 0, 1).err(), Some(RouteError::InvalidEdge));
}

#[test]
fn one_way_edge_is_not_entered_backwards() {
    // Two edges meeting at node 1; edge 1 runs one way from node 1 to node 2,
    // edge 0 from node 0 to node 1 both ways.
    let g = Graph {
        edges: vec![
            Edge { point_1_node_idx: 0, point_2_node_idx: 1, costs_and_flags: (5 << 3) | 1 },
            Edge { point_1_node_idx: 1, point_2_node_idx: 2, costs_and_flags: 7 << 3 },
        ],
        nodes: vec![
            GraphNode { edges: vec![0], interactions: vec![Interaction { incoming: 0, outgoing: 0 }] },
            GraphNode {
                edges: vec![0, 1],
                interactions: vec![Interaction { incoming: 0, outgoing: 0 }; 2],
            },
            GraphNode { edges: vec![], interactions: vec![] },
        ],
    };
    let forward = shortest_route(&g, 0, 1, &vec![false, false]).unwrap();
    assert_eq!(forward.0, vec![0, 1]);
    assert_eq!(forward.1, vec![1]);
    assert!(shortest_route(&g, 1, 0, &vec![false, false]).is_none());
}

#[test]
fn costs_of_edges_and_regimes() {
    let slots = |o: u8| Interaction { incoming: 0, outgoing: o };
    let g = Graph {
        edges: vec![
            Edge { point_1_node_idx: 0, point_2_node_idx: 1, costs_and_flags: (12 << 3) | 1 },
            Edge { point_1_node_idx: 0, point_2_node_idx: 2, costs_and_flags: 40 << 3 },
            Edge { point_1_node_idx: 0, point_2_node_idx: 3, costs_and_flags: 1 << 3 },
            Edge { point_1_node_idx: 0, point_2_node_idx: 4, costs_and_flags: 1 << 3 },
            Edge { point_1_node_idx: 0, point_2_node_idx: 5, costs_and_flags: 1 << 3 },
        ],
        nodes: vec![GraphNode {
            edges: vec![0, 1, 2, 3, 4],
            interactions: vec![slots(0), slots(1), slots(2), slots(3), slots(7)],
        }],
    };
    assert_eq!(edge_cost(&g, 0), 12);
    assert_eq!(edge_cost(&g, 1), 40);
    assert_eq!(edge_cost(&g, 9), u32::MAX);
    assert_eq!(interaction_cost(&g, 0, 0, 1), 2);
    assert_eq!(interaction_cost(&g, 0, 1, 0), 4);
    assert_eq!(interaction_cost(&g, 0, 2, 0), 8);
    assert_eq!(interaction_cost(&g, 0, 3, 0), 32);
    assert_eq!(interaction_cost(&g, 0, 4, 0), 0);
    assert_eq!(interaction_cost(&g, 0, 0, 9), 2);
    assert_eq!(interaction_cost(&g, 5, 0, 1), 2);
    assert_eq!(adjacent_edges(&g, 2, 0), vec![0, 1, 3, 4]);
    assert!(adjacent_edges(&g, 2, 8).is_empty());
}

#[test]
fn frontier_minimum_breaks_ties_by_edge() {
    assert_eq!(min_entry(&vec![(5, 1), (3, 9), (3, 4), (7, 0)]), 2);
    assert_eq!(min_entry(&vec![(1, 1)]), 0);
}

/// A ladder of `n` rungs: plenty of entries for the search to take.
fn ladder(n: i64) -> (Vec<OsmNode>, Vec<OsmWay>) {
    let mut nodes = Vec::new();
    let mut ways = Vec::new();
    for i in 0..n {
        nodes.push(node(2 * i + 1, 100_000_000 + (i as i32) * 10_000, 100_000_000));
        nodes.push(node(2 * i + 2, 100_000_000 + (i as i32) * 10_000, 100_010_000));
        ways.push(road(3 * i + 1, &[2 * i + 1, 2 * i + 2]));
        if i + 1 < n {
            ways.push(road(3 * i + 2, &[2 * i + 1, 2 * i + 3]));
            ways.push(road(3 * i + 3, &[2 * i + 2, 2 * i + 4]));
        }
    }
    (nodes, ways)
}

#[test]
fn passed_deadline_stops_the_search() {
    let (nodes, ways) = ladder(700);
    let b = build_graph(&nodes, &ways).unwrap();
    let g = b.graph.clone();
    let n = g.edges.len() as u32;
    assert!(n > 2000);
    let avoid = vec![false; n as usize];
    let gone = Deadline { start: std::time::Instant::now(), budget_ms: 0 };
    let first = b.graph.edges.iter().position(|e| e.point_1_node_idx == 0).unwrap() as u32;
    let far = b.graph.edges.iter().position(|e| e.point_2_node_idx as usize == b.graph.nodes.len() - 1).unwrap() as u32;
    assert_eq!(shortest_route_until(&g, first, far, &avoid, Some(&gone)), Err(Expired));
    let svc = MyRouteService::new(g.clone());
    let req = RouteRequest { start_edge_idx: first, end_edge_idx: far, num_paths: Some(1) };
    assert_eq!(svc.route_until(req, Some(&gone)).err(), Some(RouteError::DeadlineExceeded));
    let later = Deadline { start: std::time::Instant::now(), budget_ms: 600_000 };
    let found = shortest_route_until(&g, first, far, &avoid, Some(&later)).unwrap().unwrap();
    assert_eq!(found, shortest_route(&g, first, far, &avoid).unwrap());
}

#[test]
fn found_routes_repeat_no_edge() {
    let (nodes, ways) = two_branches(false);
    let b = build_graph(&nodes, &ways).unwrap();
    let svc = MyRouteService::new(b.graph.clone());
    let n = b.graph.edges.len() as u32;
    for s in 0..n {
        for t in 0..n {
            for p in svc.find_paths(s, t, 3).unwrap() {
                let mut es = p.edges.clone();
                es.sort();
                es.dedup();
                assert_eq!(es.len(), p.edges.len());
            }
        }
    }
}

#[test]
fn one_way_arrival_pays_the_signal() {
    // X -> N one way, N has a traffic light, then N - Y.
    let nodes = vec![
        node(1, 400_000_000, 100_000_000),
        signal_node(2, 400_100_000, 100_000_000, "traffic_signals"),
        node(3, 400_200_000, 100_000_000),
    ];
    let ways = vec![
        OsmWay {
            id: 1,
            nodes: vec![1, 2],
            tags: vec![
                ("highway".to_string(), "residential".to_string()),
                ("oneway".to_string(), "yes".to_string()),
            ],
        },
        road(2, &[2, 3]),
    ];
    let b = build_graph(&nodes, &ways).unwrap();
    let cells = b.locations.node_cells.clone();
    let g = b.graph.clone();
    let a = edge_between(&g, &cells, leaf(&nodes[0]), leaf(&nodes[1]));
    let c = edge_between(&g, &cells, leaf(&nodes[1]), leaf(&nodes[2]));
    let n = cells.iter().position(|x| *x == leaf(&nodes[1])).unwrap() as u32;
    assert_eq!(interaction_cost(&g, n, a, c), 32);
}
