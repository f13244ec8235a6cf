use s2::s1::angle::{Angle, E7};
use tobmap::graph::{Graph, MAX_SECONDS};
use tobmap::graphbuild::{
    build_graph, car_speed, parse_decimal, is_one_way, pack_costs, signal_of, travel_seconds, GraphBuild,
    OsmNode, OsmWay,
};

fn tags(pairs: &[(&str, &str)]) -> Vec<(String, String)> {
    pairs.iter().map(|(k, v)| (k.to_string(), v.to_string())).collect()
}

fn node(id: i64, lat_e7: i32, lng_e7: i32) -> OsmNode {
    OsmNode { id, lat_e7, lng_e7, tags: Vec::new() }
}

fn way(id: i64, nodes: &[i64], pairs: &[(&str, &str)]) -> OsmWay {
    OsmWay { id, nodes: nodes.to_vec(), tags: tags(pairs) }
}

fn road(id: i64, nodes: &[i64]) -> OsmWay {
    way(id, nodes, &[("highway", "residential")])
}

fn leaf(n: &OsmNode) -> u64 {
    s2::cellid::CellID::from(s2::latlng::LatLng::new(
        Angle::from(E7(n.lat_e7)),
        Angle::from(E7(n.lng_e7)),
    ))
    .0
}

fn build(nodes: &[OsmNode], ways: &[OsmWay]) -> GraphBuild {
    build_graph(&nodes.to_vec(), &ways.to_vec()).expect("small input builds")
}

fn check_graph(g: &Graph) {
    for (i, e) in g.edges.iter().enumerate() {
        assert!(e.point_1_node_idx < e.point_2_node_idx);
        assert!((e.point_2_node_idx as usize) < g.nodes.len());
        assert!(g.nodes[e.point_1_node_idx as usize].edges.contains(&(i as u32)));
        assert_eq!(
            g.nodes[e.point_2_node_idx as usize].edges.contains(&(i as u32)),
            e.backwards_allowed()
        );
        let s = e.seconds();
        assert!(s >= 1 && s <= MAX_SECONDS);
    }
    for n in &g.nodes {
        assert_eq!(n.edges.len(), n.interactions.len());
    }
}

#[test]
fn tiny_network_has_fifteen_nodes_and_thirteen_edges() {
    // A path of nine nodes and a path of six nodes, each hop its own way.
    let mut nodes = Vec::new();
    for i in 0..15i64 {
        nodes.push(node(100 + i, 520_000_000 + (i as i32) * 10_000, 130_000_000 + (i as i32 % 3) * 7_000));
    }
    let mut ways = Vec::new();
    let mut id = 1;
    for i in 0..8i64 {
        ways.push(road(id, &[100 + i, 101 + i]));
        id += 1;
    }
    for i in 9..14i64 {
        ways.push(road(id, &[100 + i, 101 + i]));
        id += 1;
    }
    assert_eq!(ways.len(), 13);
    let b = build(&nodes, &ways);
    assert_eq!(b.graph.nodes.len(), 15);
    assert_eq!(b.graph.edges.len(), 13);
    check_graph(&b.graph);
    for e in &b.graph.edges {
        assert!(e.point_2_node_idx < 15);
        assert!(e.seconds() >= 1);
    }
}

#[test]
fn one_way_pair_merges_into_one_two_way_edge() {
    let nodes = vec![node(1, 480_000_000, 20_000_000), node(2, 480_100_000, 20_100_000)];
    let ways = vec![
        way(10, &[1, 2], &[("highway", "primary"), ("oneway", "yes")]),
        way(11, &[2, 1], &[("highway", "primary"), ("oneway", "yes")]),
    ];
    let b = build(&nodes, &ways);
    assert_eq!(b.graph.edges.len(), 1);
    assert!(b.graph.edges[0].backwards_allowed());
    check_graph(&b.graph);
}

#[test]
fn single_one_way_is_not_travelled_back() {
    let nodes = vec![node(1, 480_000_000, 20_000_000), node(2, 480_100_000, 20_100_000)];
    let ways = vec![way(10, &[1, 2], &[("highway", "primary"), ("oneway", "yes")])];
    let b = build(&nodes, &ways);
    assert_eq!(b.graph.edges.len(), 1);
    // The way runs from node 1 to node 2; travel back is allowed exactly when
    // node 1 comes second in cell order.
    let c1 = leaf(&nodes[0]);
    let c2 = leaf(&nodes[1]);
    assert_eq!(b.graph.edges[0].backwards_allowed(), c1 > c2);
    check_graph(&b.graph);
}

#[test]
fn mid_way_points_are_not_intersections() {
    let nodes = vec![
        node(1, 400_000_000, 10_000_000),
        node(2, 400_010_000, 10_010_000),
        node(3, 400_020_000, 10_020_000),
        node(4, 400_030_000, 10_030_000),
    ];
    let ways = vec![road(7, &[1, 2, 3, 4])];
    let b = build(&nodes, &ways);
    assert_eq!(b.graph.nodes.len(), 2);
    assert_eq!(b.graph.edges.len(), 1);
    assert_eq!(b.locations.edge_points[0].len(), 4);
    check_graph(&b.graph);
}

#[test]
fn crossing_way_splits_edges() {
    let nodes = vec![
        node(1, 400_000_000, 10_000_000),
        node(2, 400_010_000, 10_010_000),
        node(3, 400_020_000, 10_020_000),
        node(5, 400_010_000, 10_000_000),
    ];
    let ways = vec![road(7, &[1, 2, 3]), road(8, &[5, 2])];
    let b = build(&nodes, &ways);
    assert_eq!(b.graph.nodes.len(), 4);
    assert_eq!(b.graph.edges.len(), 3);
    check_graph(&b.graph);
}

#[test]
fn non_highways_and_short_ways_are_dropped() {
    let nodes = vec![node(1, 400_000_000, 10_000_000), node(2, 400_010_000, 10_010_000)];
    let ways = vec![
        way(7, &[1, 2], &[("building", "yes")]),
        road(8, &[1, 99]),
        road(9, &[1, 1]),
    ];
    let b = build(&nodes, &ways);
    assert_eq!(b.graph.edges.len(), 0);
}

#[test]
fn build_output_is_ordered_by_cell() {
    let mut nodes = Vec::new();
    for i in 0..6i64 {
        nodes.push(node(i + 1, 100_000_000 - (i as i32) * 3_000_000, 50_000_000 + (i as i32) * 4_000_000));
    }
    let ways = vec![road(1, &[1, 2, 3]), road(2, &[3, 4]), road(3, &[4, 5, 6]), road(4, &[6, 1])];
    let b = build(&nodes, &ways);
    for w in b.edge_cells.windows(2) {
        assert!(w[0] <= w[1]);
    }
    for w in b.locations.node_cells.windows(2) {
        assert!(w[0] <= w[1]);
    }
    assert_eq!(b.edge_cells.len(), b.graph.edges.len());
    check_graph(&b.graph);
}

#[test]
fn building_twice_gives_the_same_graph() {
    let mut nodes = Vec::new();
    for i in 0..6i64 {
        nodes.push(node(i + 1, 100_000_000 + (i as i32) * 1_000_000, 50_000_000 - (i as i32) * 2_000_000));
    }
    let ways = vec![road(1, &[1, 2, 3]), road(2, &[3, 4]), road(3, &[2, 5, 6]), road(4, &[6, 1])];
    let a = build(&nodes, &ways);
    let b = build(&nodes, &ways);
    assert_eq!(a.graph.edges, b.graph.edges);
    assert_eq!(a.locations.node_cells, b.locations.node_cells);
    assert_eq!(a.locations.edge_points, b.locations.edge_points);
    assert_eq!(a.edge_cells, b.edge_cells);
    for (x, y) in a.graph.nodes.iter().zip(b.graph.nodes.iter()) {
        assert_eq!(x.edges, y.edges);
        assert_eq!(x.interactions, y.interactions);
    }
}

#[test]
fn node_cells_are_s2_leaf_cells() {
    let nodes = vec![node(1, 480_000_000, 20_000_000), node(2, 480_100_000, 20_100_000)];
    let ways = vec![road(10, &[1, 2])];
    let b = build(&nodes, &ways);
    let mut expected: Vec<u64> = nodes.iter().map(leaf).collect();
    expected.sort();
    assert_eq!(b.locations.node_cells, expected);
    for c in &b.locations.node_cells {
        assert_eq!(c % 2, 1);
    }
}

#[test]
fn long_edge_takes_its_travel_time() {
    // 0.09 degrees of latitude, about 10 km, at 50 km/h: 720 seconds.
    let nodes = vec![node(1, 400_000_000, 10_000_000), node(2, 400_900_000, 10_000_000)];
    let ways = vec![way(3, &[1, 2], &[("highway", "secondary")])];
    let b = build(&nodes, &ways);
    assert_eq!(b.graph.edges[0].seconds(), 720);
    assert!(b.graph.edges[0].backwards_allowed());
}

#[test]
fn travel_seconds_formula() {
    assert_eq!(travel_seconds(900_000, 50), 720);
    assert_eq!(travel_seconds(900_000, 100), 360);
    assert_eq!(travel_seconds(0, 30), 1);
    assert_eq!(travel_seconds(10, 30), 1);
    assert_eq!(travel_seconds(900_000, 0), MAX_SECONDS);
    assert_eq!(travel_seconds(2_000_000_000, 10), MAX_SECONDS);
}

#[test]
fn pack_costs_layout() {
    assert_eq!(pack_costs(720, true), (720 << 3) | 1);
    assert_eq!(pack_costs(720, false), 720 << 3);
    assert_eq!(pack_costs(MAX_SECONDS, true) >> 3, MAX_SECONDS);
    assert_eq!(pack_costs(1, false), 8);
}

#[test]
fn speeds_by_class_and_maxspeed() {
    assert_eq!(car_speed(&tags(&[("highway", "motorway")])), 100);
    assert_eq!(car_speed(&tags(&[("highway", "trunk_link")])), 80);
    assert_eq!(car_speed(&tags(&[("highway", "primary")])), 60);
    assert_eq!(car_speed(&tags(&[("highway", "secondary")])), 50);
    assert_eq!(car_speed(&tags(&[("highway", "tertiary")])), 40);
    assert_eq!(car_speed(&tags(&[("highway", "unclassified")])), 30);
    assert_eq!(car_speed(&tags(&[("highway", "service")])), 20);
    assert_eq!(car_speed(&tags(&[("highway", "living_street")])), 10);
    assert_eq!(car_speed(&tags(&[("highway", "footway")])), 0);
    assert_eq!(car_speed(&tags(&[("highway", "cycleway")])), 0);
    assert_eq!(car_speed(&tags(&[("highway", "track")])), 30);
    assert_eq!(car_speed(&tags(&[("highway", "residential"), ("maxspeed", "70")])), 70);
    assert_eq!(car_speed(&tags(&[("highway", "residential"), ("maxspeed", "50 mph")])), 30);
}

#[test]
fn one_way_and_signal_tags() {
    assert!(is_one_way(&tags(&[("oneway", "yes")])));
    assert!(!is_one_way(&tags(&[("oneway", "no")])));
    assert!(!is_one_way(&tags(&[])));
    assert_eq!(signal_of(&tags(&[("highway", "traffic_signals")])), 3);
    assert_eq!(signal_of(&tags(&[("highway", "stop")])), 2);
    assert_eq!(signal_of(&tags(&[("highway", "give_way")])), 1);
    assert_eq!(signal_of(&tags(&[("highway", "crossing")])), 0);
    assert_eq!(signal_of(&tags(&[])), 0);
}

#[test]
fn node_positions_name_the_intersections() {
    let nodes = vec![
        node(1, 400_000_000, 10_000_000),
        node(2, 400_010_000, 10_010_000),
        node(3, 400_020_000, 10_020_000),
        node(4, 400_030_000, 10_030_000),
        node(5, 400_010_000, 10_000_000),
    ];
    // Node 4 is a shape point of way 7 only; node 3 ends it.
    let ways = vec![road(7, &[1, 2, 4, 3]), road(8, &[5, 2])];
    let b = build(&nodes, &ways);
    let mut ids: Vec<i64> = b.node_positions.iter().map(|p| nodes[*p].id).collect();
    ids.sort();
    assert_eq!(ids, vec![1, 2, 3, 5]);
    for (k, p) in b.node_positions.iter().enumerate() {
        assert_eq!(b.locations.node_cells[k], leaf(&nodes[*p]));
    }
    // Every edge joins intersections that follow each other on a way.
    let mut pairs: Vec<(i64, i64)> = b
        .graph
        .edges
        .iter()
        .map(|e| {
            let a = nodes[b.node_positions[e.point_1_node_idx as usize]].id;
            let c = nodes[b.node_positions[e.point_2_node_idx as usize]].id;
            (a.min(c), a.max(c))
        })
        .collect();
    pairs.sort();
    assert_eq!(pairs, vec![(1, 2), (2, 3), (2, 5)]);
}

fn mean(x: i32, y: i32) -> i32 {
    ((x as i64 + y as i64) / 2) as i32
}

#[test]
fn edge_cells_are_midpoint_cells() {
    let mut nodes = Vec::new();
    for i in 0..6i64 {
        nodes.push(node(i + 1, -100_000_000 + (i as i32) * 3_000_001, -50_000_000 + (i as i32) * 4_000_003));
    }
    let ways = vec![road(1, &[1, 2, 3]), road(2, &[3, 4]), road(3, &[4, 5, 6]), road(4, &[6, 1])];
    let b = build(&nodes, &ways);
    for (e, edge) in b.graph.edges.iter().enumerate() {
        let a = &nodes[b.node_positions[edge.point_1_node_idx as usize]];
        let c = &nodes[b.node_positions[edge.point_2_node_idx as usize]];
        let m = node(0, mean(a.lat_e7, c.lat_e7), mean(a.lng_e7, c.lng_e7));
        assert_eq!(b.edge_cells[e], leaf(&m));
    }
}

#[test]
fn decimal_texts_read_as_std_reads_them() {
    let cases = [
        "70", "+5", "", "+", "-0", "-5", "007", "4294967295", "4294967296", "99999999999", "5a", " 5",
        "5 mph", "30.5", "\u{0663}", "++1", "0",
    ];
    for c in cases {
        assert_eq!(parse_decimal(c), c.parse::<u32>().ok(), "{}", c);
    }
    assert_eq!(parse_decimal("4294967295"), Some(u32::MAX));
    assert_eq!(parse_decimal("+12"), Some(12));
}
