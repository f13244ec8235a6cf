//! Nearest-edge lookup over the two-level snap index: one file per outer-level
//! cell, holding one bucket per inner-level cell.

use vstd::prelude::*;
use crate::cell::{cell_parent, center_gap, center_gap_bits, is_leaf_cell, parent_of, MAX_LEVEL};

verus! {

/// The edges whose representative cell lies in one inner-level cell: the
/// representative cells and the edge indexes, in parallel.
#[derive(Clone, Debug)]
pub struct SnapBucket {
    pub cell_id: u64,
    pub edge_cell_ids: Vec<u64>,
    pub edge_indexes: Vec<u32>,
}

/// The buckets of one outer-level cell, by increasing cell id.
#[derive(Clone, Debug)]
pub struct SnapFile {
    pub cell_id: u64,
    pub buckets: Vec<SnapBucket>,
}

/// The answer to a snap query: the edge found and its representative cell, or,
/// when `snapped` is false, edge 0 and the query cell itself.
#[derive(Clone, Copy, Debug, PartialEq, Eq, Structural)]
pub struct SnapResult {
    pub edge_index: u32,
    pub cell_id: u64,
    pub snapped: bool,
}

/// Why a snap service could not be set up.
#[derive(Clone, Copy, Debug, PartialEq, Eq, Structural)]
pub enum SnapError {
    /// The levels are not `outer < inner <= MAX_LEVEL`.
    BadLevels,
}

/// The snap service: the files of the index, keyed by their outer cell.
#[derive(Clone, Debug)]
pub struct MySnapService {
    pub files: Vec<SnapFile>,
    pub outer_cell_level: u8,
    pub inner_cell_level: u8,
}

/// Entry `k` is the first leaf-cell entry of `cells` whose center is nearest to
/// the center of `q`.
pub open spec fn is_closest(cells: Seq<u64>, q: u64, k: int) -> bool {
    &&& 0 <= k < cells.len()
    &&& is_leaf_cell(cells[k])
    &&& forall|j: int|
        0 <= j < cells.len() && is_leaf_cell(cells[j]) ==> center_gap(q, cells[k]) <= center_gap(
            q,
            #[trigger] cells[j],
        )
    &&& forall|j: int|
        0 <= j < k && is_leaf_cell(cells[j]) ==> center_gap(q, cells[k]) < center_gap(
            q,
            #[trigger] cells[j],
        )
}

/// The bucket can be searched: its lists are parallel and one cell is a leaf.
pub open spec fn searchable(b: SnapBucket) -> bool {
    &&& b.edge_cell_ids@.len() == b.edge_indexes@.len()
    &&& exists|j: int| 0 <= j < b.edge_cell_ids@.len() && is_leaf_cell(#[trigger] b.edge_cell_ids@[j])
}

/// Position `i` holds the first file of cell `c`.
pub open spec fn is_first_file(files: Seq<SnapFile>, c: u64, i: int) -> bool {
    &&& 0 <= i < files.len()
    &&& files[i].cell_id == c
    &&& forall|j: int| 0 <= j < i ==> (#[trigger] files[j]).cell_id != c
}

/// Position `i` holds the first bucket of cell `c`.
pub open spec fn is_first_bucket(buckets: Seq<SnapBucket>, c: u64, i: int) -> bool {
    &&& 0 <= i < buckets.len()
    &&& buckets[i].cell_id == c
    &&& forall|j: int| 0 <= j < i ==> (#[trigger] buckets[j]).cell_id != c
}

/// `r` is the answer that gives up on `q`.
pub open spec fn unsnapped(r: SnapResult, q: u64) -> bool {
    r.edge_index == 0 && r.cell_id == q && !r.snapped
}

/// `r` is what a search of `b` for `q` answers.
pub open spec fn snapped_in(b: SnapBucket, q: u64, r: SnapResult) -> bool {
    &&& !searchable(b) ==> unsnapped(r, q)
    &&& forall|k: int|
        #[trigger] is_closest(b.edge_cell_ids@, q, k) && searchable(b) ==> {
            &&& r.edge_index == b.edge_indexes@[k]
            &&& r.cell_id == b.edge_cell_ids@[k]
            &&& r.snapped
        }
    &&& forall|k: int|
        0 <= k < b.edge_cell_ids@.len() && searchable(b) && #[trigger] b.edge_cell_ids@[k] == q
            && (forall|j: int|
            0 <= j < k && is_leaf_cell(b.edge_cell_ids@[j]) ==> center_gap(q, b.edge_cell_ids@[j]) != 0)
            ==> r.edge_index == b.edge_indexes@[k] && r.cell_id == q && r.snapped
}

/// The entry of a bucket whose representative cell is nearest to `target`, as
/// (edge index, cell). Cells that are not leaf cells are passed over.
pub fn find_closest_edge(bucket: &SnapBucket, target: u64) -> (r: Option<(u32, u64)>)
    requires
        is_leaf_cell(target),
    ensures
        r is None <==> !searchable(*bucket),
        forall|k: int|
            #[trigger] is_closest(bucket.edge_cell_ids@, target, k) && searchable(*bucket) ==> r
                == Some((bucket.edge_indexes@[k], bucket.edge_cell_ids@[k])),
        forall|k: int|
            0 <= k < bucket.edge_cell_ids@.len() && searchable(*bucket)
                && #[trigger] bucket.edge_cell_ids@[k] == target && (forall|j: int|
                0 <= j < k && is_leaf_cell(bucket.edge_cell_ids@[j]) ==> center_gap(
                    target,
                    bucket.edge_cell_ids@[j],
                ) != 0) ==> r == Some((bucket.edge_indexes@[k], target)),
{
    let cells = &bucket.edge_cell_ids;
    if cells.len() != bucket.edge_indexes.len() {
        return None;
    }
    let mut best: Option<usize> = None;
    let mut best_gap: u64 = 0;
    let mut i: usize = 0;
    while i < cells.len()
        invariant
            i <= cells@.len(),
            cells == &bucket.edge_cell_ids,
            is_leaf_cell(target),
            best is None ==> forall|j: int| 0 <= j < i ==> !is_leaf_cell(#[trigger] cells@[j]),
            best matches Some(b) ==> b < i && best_gap == center_gap(target, cells@[b as int])
                && is_leaf_cell(cells@[b as int]) && (forall|j: int|
                0 <= j < i && is_leaf_cell(cells@[j]) ==> best_gap <= center_gap(
                    target,
                    #[trigger] cells@[j],
                )) && (forall|j: int|
                0 <= j < b && is_leaf_cell(cells@[j]) ==> best_gap < center_gap(
                    target,
                    #[trigger] cells@[j],
                )),
            forall|j: int| 0 <= j < i && cells@[j] == target ==> center_gap(target, #[trigger] cells@[j]) == 0,
        decreases cells@.len() - i,
    {
        let c = cells[i];
        if c < 0xC000_0000_0000_0000u64 && c % 2 == 1 {
            let gap = center_gap_bits(target, c);
            match best {
                None => {
                    best = Some(i);
                    best_gap = gap;
                },
                Some(_) => {
                    if gap < best_gap {
                        best = Some(i);
                        best_gap = gap;
                    }
                },
            }
        }
        i = i + 1;
    }
    match best {
        None => None,
        Some(b) => {
            assert(is_closest(cells@, target, b as int));
            proof {
                assert forall|k: int| #[trigger]
                    is_closest(cells@, target, k) implies k == b as int by {
                    if k < b {
                        assert(center_gap(target, cells@[b as int]) < center_gap(target, cells@[k]));
                    } else if k > b {
                        assert(center_gap(target, cells@[k]) < center_gap(target, cells@[b as int]));
                    }
                }
            }
            Some((bucket.edge_indexes[b], cells[b]))
        },
    }
}

impl MySnapService {
    /// The levels are ordered and within the hierarchy.
    pub open spec fn wf(&self) -> bool {
        self.outer_cell_level < self.inner_cell_level <= MAX_LEVEL
    }

    /// A service over `files`, or `BadLevels` unless `outer < inner <= MAX_LEVEL`.
    pub fn new(files: Vec<SnapFile>, outer_cell_level: u8, inner_cell_level: u8) -> (r: Result<
        Self,
        SnapError,
    >)
        ensures
            (outer_cell_level < inner_cell_level <= MAX_LEVEL) <==> r is Ok,
            r matches Ok(s) ==> s.files == files && s.outer_cell_level == outer_cell_level
                && s.inner_cell_level == inner_cell_level,
    {
        if outer_cell_level < inner_cell_level && inner_cell_level <= MAX_LEVEL {
            Ok(MySnapService { files, outer_cell_level, inner_cell_level })
        } else {
            Err(SnapError::BadLevels)
        }
    }

    /// Snaps the leaf cell `q` to the nearest edge of its bucket: the file of its
    /// outer-level ancestor, the bucket of its inner-level ancestor, and there the
    /// entry whose cell's center is nearest to `q`'s.
    pub fn snap(&self, q: u64) -> (r: SnapResult)
        requires
            self.wf(),
        ensures
            !is_leaf_cell(q) ==> unsnapped(r, q),
            is_leaf_cell(q) && (forall|i: int|
                0 <= i < self.files@.len() ==> (#[trigger] self.files@[i]).cell_id != parent_of(
                    q,
                    self.outer_cell_level,
                )) ==> unsnapped(r, q),
            forall|fi: int|
                is_leaf_cell(q) && #[trigger] is_first_file(
                    self.files@,
                    parent_of(q, self.outer_cell_level),
                    fi,
                ) ==> {
                    let bs = self.files@[fi].buckets@;
                    let inner = parent_of(q, self.inner_cell_level);
                    &&& (forall|b: int| 0 <= b < bs.len() ==> (#[trigger] bs[b]).cell_id != inner)
                        ==> unsnapped(r, q)
                    &&& forall|bi: int| #[trigger]
                        is_first_bucket(bs, inner, bi) ==> snapped_in(bs[bi], q, r)
                },
    {
        if q >= 0xC000_0000_0000_0000u64 || q % 2 == 0 {
            return SnapResult { edge_index: 0, cell_id: q, snapped: false };
        }
        let unsnap = SnapResult { edge_index: 0, cell_id: q, snapped: false };
        let outer = cell_parent(q, self.outer_cell_level);
        let inner = cell_parent(q, self.inner_cell_level);
        let mut fi: usize = 0;
        while fi < self.files.len() && self.files[fi].cell_id != outer
            invariant
                fi <= self.files@.len(),
                forall|j: int| 0 <= j < fi ==> (#[trigger] self.files@[j]).cell_id != outer,
            decreases self.files@.len() - fi,
        {
            fi = fi + 1;
        }
        if fi == self.files.len() {
            return unsnap;
        }
        assert(is_first_file(self.files@, outer, fi as int));
        assert forall|f: int| #[trigger] is_first_file(self.files@, outer, f) implies f == fi by {
            if f < fi {
                assert(self.files@[f].cell_id != outer);
            } else if f > fi {
                assert(self.files@[fi as int].cell_id != outer);
            }
        }
        let buckets = &self.files[fi].buckets;
        let mut bi: usize = 0;
        while bi < buckets.len() && buckets[bi].cell_id != inner
            invariant
                bi <= buckets@.len(),
                forall|j: int| 0 <= j < bi ==> (#[trigger] buckets@[j]).cell_id != inner,
            decreases buckets@.len() - bi,
        {
            bi = bi + 1;
        }
        if bi == buckets.len() {
            return unsnap;
        }
        assert forall|b: int| #[trigger] is_first_bucket(buckets@, inner, b) implies b == bi by {
            if b < bi {
                assert(buckets@[b].cell_id != inner);
            } else if b > bi {
                assert(buckets@[bi as int].cell_id != inner);
            }
        }
        match find_closest_edge(&buckets[bi], q) {
            Some((edge_index, cell_id)) => SnapResult { edge_index, cell_id, snapped: true },
            None => unsnap,
        }
    }
}

} // verus!
