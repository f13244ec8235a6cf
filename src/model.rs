//! Map data grouped by cell: the encoded nodes and edges that lie in each cell.

use vstd::prelude::*;

verus! {

/// The encoded nodes and edges of one cell.
#[derive(Clone, Debug)]
pub struct Cell {
    pub s2_cell_id: u64,
    pub node_buffers: Vec<Vec<u8>>,
    pub edge_buffers: Vec<Vec<u8>>,
}

impl Cell {
    /// An empty cell.
    pub fn new(s2_cell_id: u64) -> (r: Self)
        ensures
            r.s2_cell_id == s2_cell_id,
            r.node_buffers@.len() == 0,
            r.edge_buffers@.len() == 0,
    {
        Cell { s2_cell_id, node_buffers: Vec::new(), edge_buffers: Vec::new() }
    }

    /// Adds an encoded node.
    pub fn add_node(&mut self, buffer: Vec<u8>)
        ensures
            final(self).s2_cell_id == old(self).s2_cell_id,
            final(self).node_buffers@ == old(self).node_buffers@.push(buffer),
            final(self).edge_buffers@ == old(self).edge_buffers@,
    {
        self.node_buffers.push(buffer);
    }

    /// Adds an encoded edge.
    pub fn add_edge(&mut self, buffer: Vec<u8>)
        ensures
            final(self).s2_cell_id == old(self).s2_cell_id,
            final(self).edge_buffers@ == old(self).edge_buffers@.push(buffer),
            final(self).node_buffers@ == old(self).node_buffers@,
    {
        self.edge_buffers.push(buffer);
    }
}

/// All map data, by cell, with the versions and dates it was made from.
#[derive(Clone, Debug)]
pub struct MapData {
    pub version: String,
    pub osm_data_date: String,
    pub generation_date: String,
    pub cells: Vec<Cell>,
}

impl MapData {
    /// The cells hold distinct ids.
    pub open spec fn wf(&self) -> bool {
        forall|i: int, j: int|
            0 <= i < j < self.cells@.len() ==> (#[trigger] self.cells@[i]).s2_cell_id
                != (#[trigger] self.cells@[j]).s2_cell_id
    }

    /// The position of the cell of id `s2_cell_id`, added empty when missing.
    pub fn get_or_create_cell(&mut self, s2_cell_id: u64) -> (r: usize)
        requires
            old(self).wf(),
        ensures
            final(self).wf(),
            r < final(self).cells@.len(),
            final(self).cells@[r as int].s2_cell_id == s2_cell_id,
            (exists|i: int| 0 <= i < old(self).cells@.len() && (#[trigger] old(self).cells@[i]).s2_cell_id == s2_cell_id)
                ==> final(self).cells@ == old(self).cells@,
            (forall|i: int| 0 <= i < old(self).cells@.len() ==> (#[trigger] old(self).cells@[i]).s2_cell_id != s2_cell_id)
                ==> final(self).cells@.len() == old(self).cells@.len() + 1 && final(self).cells@.drop_last()
                == old(self).cells@ && final(self).cells@.last().node_buffers@.len() == 0
                && final(self).cells@.last().edge_buffers@.len() == 0,
            final(self).version == old(self).version,
            final(self).osm_data_date == old(self).osm_data_date,
            final(self).generation_date == old(self).generation_date,
    {
        let mut i: usize = 0;
        while i < self.cells.len()
            invariant
                i <= self.cells@.len(),
                self.wf(),
                *self == *old(self),
                forall|j: int| 0 <= j < i ==> (#[trigger] self.cells@[j]).s2_cell_id != s2_cell_id,
            decreases self.cells@.len() - i,
        {
            if self.cells[i].s2_cell_id == s2_cell_id {
                return i;
            }
            i = i + 1;
        }
        let ghost old_cells = self.cells@;
        self.cells.push(Cell::new(s2_cell_id));
        assert(self.cells@.drop_last() == old_cells);
        assert forall|a: int, b: int|
            0 <= a < b < self.cells@.len() implies (#[trigger] self.cells@[a]).s2_cell_id
            != (#[trigger] self.cells@[b]).s2_cell_id by {
            if b < old_cells.len() {
                assert(self.cells@[a] == old_cells[a]);
                assert(self.cells@[b] == old_cells[b]);
            } else {
                assert(self.cells@[a] == old_cells[a]);
            }
        }
        i
    }
}

} // verus!
