use tobmap::model::{Cell, MapData};
use tobmap::source::OsmSource;
use tobmap::tiles::{get_tile_filename, TileConfig};

#[test]
fn tile_file_names() {
    assert_eq!(get_tile_filename(3, 5, 7), "tile_z3_x5_y7.png");
    assert_eq!(get_tile_filename(0, 0, 0), "tile_z0_x0_y0.png");
    assert_eq!(get_tile_filename(12, 4095, 1024), "tile_z12_x4095_y1024.png");
    assert_eq!(get_tile_filename(u32::MAX, 10, 100), "tile_z4294967295_x10_y100.png");
}

#[test]
fn tile_config_holds_its_grid() {
    let t = TileConfig { rows: 4, columns: 8, row_index: 1, column_index: 2, tile_size: 256, zoom_level: 3 };
    assert_eq!(t, t.clone());
    assert_eq!(t.columns, 8);
}

#[test]
fn cells_collect_buffers() {
    let mut c = Cell::new(42);
    c.add_node(vec![1, 2]);
    c.add_edge(vec![3]);
    c.add_node(vec![4]);
    assert_eq!(c.s2_cell_id, 42);
    assert_eq!(c.node_buffers, vec![vec![1, 2], vec![4]]);
    assert_eq!(c.edge_buffers, vec![vec![3]]);
}

#[test]
fn map_data_finds_or_adds_cells() {
    let mut m = MapData {
        version: "1".to_string(),
        osm_data_date: String::new(),
        generation_date: String::new(),
        cells: Vec::new(),
    };
    let a = m.get_or_create_cell(7);
    let b = m.get_or_create_cell(9);
    let c = m.get_or_create_cell(7);
    assert_eq!(a, 0);
    assert_eq!(b, 1);
    assert_eq!(c, 0);
    assert_eq!(m.cells.len(), 2);
    assert_eq!(m.cells[1].s2_cell_id, 9);
}

#[test]
fn source_urls() {
    assert_eq!(
        OsmSource::Planet.url().unwrap(),
        "https://planet.openstreetmap.org/pbf/planet-latest.osm.pbf"
    );
    assert_eq!(
        OsmSource::Country("Germany".to_string()).url().unwrap(),
        "https://download.geofabrik.de/germany.osm.pbf"
    );
    assert_eq!(
        OsmSource::Region("Europe".to_string(), "France".to_string()).url().unwrap(),
        "https://download.geofabrik.de/europe/france.osm.pbf"
    );
    assert_eq!(
        OsmSource::State("California".to_string()).url().unwrap(),
        "https://download.geofabrik.de/north-america/us/california-latest.osm.pbf"
    );
    assert_eq!(
        OsmSource::CustomUrl("http://x/y.pbf".to_string()).url().unwrap(),
        "http://x/y.pbf"
    );
    assert_eq!(OsmSource::LocalFile("a.pbf".to_string()).url(), None);
}
