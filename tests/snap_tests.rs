use tobmap::graphbuild::{build_graph, OsmNode, OsmWay};
use tobmap::snap::{find_closest_edge, MySnapService, SnapBucket, SnapError, SnapFile};
use tobmap::snapbuild::{build_snap_files, Config, Locations};

fn node(id: i64, lat_e7: i32, lng_e7: i32) -> OsmNode {
    OsmNode { id, lat_e7, lng_e7, tags: Vec::new() }
}

fn road(id: i64, nodes: &[i64]) -> OsmWay {
    OsmWay {
        id,
        nodes: nodes.to_vec(),
        tags: vec![("highway".to_string(), "residential".to_string())],
    }
}

fn cell_at(lat: f64, lng: f64) -> u64 {
    s2::cellid::CellID::from(s2::latlng::LatLng::from_degrees(lat, lng)).0
}

fn parent(c: u64, level: u64) -> u64 {
    s2::cellid::CellID(c).parent(level).0
}

#[test]
fn snap_at_the_edge_cell_returns_the_edge() {
    let nodes = vec![node(1, 515_000_000, -1_000_000), node(2, 515_010_000, -1_010_000), node(3, 515_020_000, -1_020_000)];
    let ways = vec![road(1, &[1, 2, 3])];
    let b = build_graph(&nodes, &ways).unwrap();
    assert_eq!(b.graph.edges.len(), 1);
    let files = build_snap_files(&b.locations, 4, 8);
    let rep = b.locations.edge_points[0][1];
    let svc = MySnapService::new(files, 4, 8).unwrap();
    let r = svc.snap(rep);
    assert!(r.snapped);
    assert_eq!(r.edge_index, 0);
    assert_eq!(r.cell_id, rep);
}

#[test]
fn snap_files_partition_the_edges() {
    let mut nodes = Vec::new();
    for i in 0..8i64 {
        nodes.push(node(i + 1, 100_000_000 + (i as i32) * 20_000_000, 20_000_000 + (i as i32) * 15_000_000));
    }
    let ways = vec![road(1, &[1, 2, 3]), road(2, &[3, 4, 5]), road(3, &[5, 6]), road(4, &[6, 7, 8]), road(5, &[8, 1])];
    let b = build_graph(&nodes, &ways).unwrap();
    let files = build_snap_files(&b.locations, 4, 8);
    let mut seen = vec![0; b.graph.edges.len()];
    for w in files.windows(2) {
        assert!(w[0].cell_id < w[1].cell_id);
    }
    for f in &files {
        for w in f.buckets.windows(2) {
            assert!(w[0].cell_id < w[1].cell_id);
        }
        for bk in &f.buckets {
            assert_eq!(bk.edge_cell_ids.len(), bk.edge_indexes.len());
            for (c, e) in bk.edge_cell_ids.iter().zip(bk.edge_indexes.iter()) {
                seen[*e as usize] += 1;
                let pts = &b.locations.edge_points[*e as usize];
                assert_eq!(*c, pts[(pts.len() - 1) / 2]);
                assert_eq!(parent(*c, 4), f.cell_id);
                assert_eq!(parent(*c, 8), bk.cell_id);
            }
        }
    }
    assert!(seen.iter().all(|n| *n == 1));
    assert!(files.len() >= 2);
}

#[test]
fn snap_picks_the_nearest_cell() {
    let q = cell_at(10.0, 10.0);
    let near = cell_at(10.0001, 10.0001);
    let far = cell_at(10.01, 10.01);
    let bucket = SnapBucket {
        cell_id: parent(q, 8),
        edge_cell_ids: vec![far, near, near, u64::MAX],
        edge_indexes: vec![7, 8, 9, 10],
    };
    assert_eq!(find_closest_edge(&bucket, q), Some((8, near)));
    let empty = SnapBucket { cell_id: 0, edge_cell_ids: vec![], edge_indexes: vec![] };
    assert_eq!(find_closest_edge(&empty, q), None);
    let uneven = SnapBucket { cell_id: 0, edge_cell_ids: vec![near], edge_indexes: vec![] };
    assert_eq!(find_closest_edge(&uneven, q), None);
}

#[test]
fn snap_misses_give_back_the_query() {
    let q = cell_at(10.0, 10.0);
    let near = cell_at(10.0001, 10.0001);
    let file = SnapFile {
        cell_id: parent(q, 4),
        buckets: vec![SnapBucket { cell_id: parent(q, 8), edge_cell_ids: vec![near], edge_indexes: vec![3] }],
    };
    let svc = MySnapService::new(vec![file], 4, 8).unwrap();
    let hit = svc.snap(q);
    assert!(hit.snapped);
    assert_eq!(hit.edge_index, 3);
    assert_eq!(hit.cell_id, near);
    let elsewhere = cell_at(-40.0, 100.0);
    let miss = svc.snap(elsewhere);
    assert!(!miss.snapped);
    assert_eq!(miss.edge_index, 0);
    assert_eq!(miss.cell_id, elsewhere);
    // Same outer cell, other inner cell.
    let mut neighbour = q;
    for d in 1..400 {
        let c = cell_at(10.0 + d as f64 * 0.01, 10.0);
        if parent(c, 4) == parent(q, 4) && parent(c, 8) != parent(q, 8) {
            neighbour = c;
            break;
        }
    }
    assert_eq!(parent(neighbour, 4), parent(q, 4));
    assert_ne!(parent(neighbour, 8), parent(q, 8));
    assert!(!svc.snap(neighbour).snapped);
    assert!(!svc.snap(u64::MAX).snapped);
}

#[test]
fn snap_levels_must_be_ordered() {
    assert_eq!(MySnapService::new(vec![], 8, 4).err(), Some(SnapError::BadLevels));
    assert_eq!(MySnapService::new(vec![], 4, 31).err(), Some(SnapError::BadLevels));
    assert!(MySnapService::new(vec![], 4, 8).is_ok());
}

#[test]
fn edges_without_polyline_are_left_out() {
    let loc = Locations { node_cells: vec![], edge_points: vec![vec![], vec![cell_at(1.0, 1.0)]] };
    let files = build_snap_files(&loc, 4, 8);
    assert_eq!(files.len(), 1);
    assert_eq!(files[0].buckets.len(), 1);
    assert_eq!(files[0].buckets[0].edge_indexes, vec![1]);
}

#[test]
fn snap_config_defaults() {
    let c = Config::default();
    assert_eq!(c.outer_cell_level, 4);
    assert_eq!(c.inner_cell_level, 8);
    assert_eq!(c.graph_path, "graph.bin");
    assert_eq!(c.location_path, "location.bin");
    assert_eq!(c.output_dir, "snapbuckets");
}

#[test]
fn cells_that_are_not_leaves_are_passed_over() {
    let q = cell_at(10.0, 10.0);
    let near = cell_at(10.0001, 10.0001);
    let coarse = parent(near, 29);
    assert_eq!(coarse % 2, 0);
    let bucket = SnapBucket { cell_id: parent(q, 8), edge_cell_ids: vec![coarse, near], edge_indexes: vec![4, 5] };
    assert_eq!(find_closest_edge(&bucket, q), Some((5, near)));
    let only = SnapBucket { cell_id: parent(q, 8), edge_cell_ids: vec![coarse], edge_indexes: vec![4] };
    assert_eq!(find_closest_edge(&only, q), None);
    let file = SnapFile { cell_id: parent(q, 4), buckets: vec![bucket] };
    let svc = MySnapService::new(vec![file], 4, 8).unwrap();
    let r = svc.snap(parent(q, 29));
    assert!(!r.snapped);
    assert_eq!(r.cell_id, parent(q, 29));
}

#[test]
fn snap_files_hold_no_empty_bucket() {
    let loc = Locations {
        node_cells: vec![],
        edge_points: vec![vec![cell_at(1.0, 1.0)], vec![], vec![cell_at(40.0, 40.0), cell_at(40.1, 40.0)]],
    };
    let files = build_snap_files(&loc, 4, 8);
    assert_eq!(files.len(), 2);
    for f in &files {
        assert!(!f.buckets.is_empty());
        for bk in &f.buckets {
            assert!(!bk.edge_indexes.is_empty());
        }
    }
}
