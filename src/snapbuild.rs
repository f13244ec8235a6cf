//! Building the snap index: each edge is placed, by its representative cell, in
//! the bucket of that cell's inner-level ancestor, inside the file of its
//! outer-level ancestor.

use vstd::prelude::*;
use crate::cell::{cell_parent, parent_of, MAX_LEVEL};
use crate::order::{
    lemma_same_multiset, lemma_sorted_distinct_strict, sort_triples, triple_lt, triples_sorted,
};
use crate::snap::{SnapBucket, SnapFile};
use vstd::string::StringExecFns;

verus! {

/// Where the graph lies: the cell of each node, and the polyline of cells of each
/// edge, from its first node to its second.
#[derive(Clone, Debug)]
pub struct Locations {
    pub node_cells: Vec<u64>,
    pub edge_points: Vec<Vec<u64>>,
}

/// Where a snap index is built from and written to, and its two cell levels.
#[derive(Clone, Debug)]
pub struct Config {
    pub outer_cell_level: u8,
    pub inner_cell_level: u8,
    pub graph_path: String,
    pub location_path: String,
    pub output_dir: String,
}

impl Default for Config {
    /// Levels 4 and 8; `graph.bin`, `location.bin`, and the directory `snapbuckets`.
    fn default() -> (r: Self)
        ensures
            r.outer_cell_level == 4,
            r.inner_cell_level == 8,
            r.graph_path@ == "graph.bin"@,
            r.location_path@ == "location.bin"@,
            r.output_dir@ == "snapbuckets"@,
    {
        Config {
            outer_cell_level: 4,
            inner_cell_level: 8,
            graph_path: String::from_str("graph.bin"),
            location_path: String::from_str("location.bin"),
            output_dir: String::from_str("snapbuckets"),
        }
    }
}

/// The representative cell of a polyline: its middle point, the earlier of the
/// two middle points when there are two.
pub open spec fn rep_of(points: Seq<u64>) -> u64 {
    points[(points.len() - 1) / 2]
}

/// Edge `e` of `loc` has a polyline, so a representative cell.
pub open spec fn has_rep(loc: &Locations, e: int) -> bool {
    0 <= e < loc.edge_points@.len() && loc.edge_points@[e]@.len() > 0
}

/// Entry `k` of bucket `b`, in a file of cell `fcell`, names an edge whose
/// representative cell is the entry's cell and lies in both cells.
pub open spec fn entry_placed(
    loc: &Locations,
    outer: u8,
    inner: u8,
    fcell: u64,
    b: SnapBucket,
    k: int,
) -> bool {
    let e = b.edge_indexes@[k] as int;
    &&& has_rep(loc, e)
    &&& b.edge_cell_ids@[k] == rep_of(loc.edge_points@[e]@)
    &&& fcell == parent_of(rep_of(loc.edge_points@[e]@), outer)
    &&& b.cell_id == parent_of(rep_of(loc.edge_points@[e]@), inner)
}

/// Bucket `b` of a file of cell `fcell` is well placed: parallel lists, every
/// entry placed, edges in increasing order.
pub open spec fn bucket_ok(loc: &Locations, outer: u8, inner: u8, fcell: u64, b: SnapBucket) -> bool {
    &&& b.edge_cell_ids@.len() == b.edge_indexes@.len()
    &&& forall|k: int|
        0 <= k < b.edge_indexes@.len() ==> #[trigger] entry_placed(loc, outer, inner, fcell, b, k)
    &&& forall|k1: int, k2: int|
        0 <= k1 < k2 < b.edge_indexes@.len() ==> #[trigger] b.edge_indexes@[k1]
            < #[trigger] b.edge_indexes@[k2]
}

/// Buckets of a file of cell `fcell`: each well placed, by increasing cell id.
pub open spec fn buckets_ok(
    loc: &Locations,
    outer: u8,
    inner: u8,
    fcell: u64,
    bs: Seq<SnapBucket>,
) -> bool {
    &&& forall|b: int| 0 <= b < bs.len() ==> bucket_ok(loc, outer, inner, fcell, #[trigger] bs[b])
    &&& forall|b1: int, b2: int|
        0 <= b1 < b2 < bs.len() ==> (#[trigger] bs[b1]).cell_id < (#[trigger] bs[b2]).cell_id
}

/// The files of a snap index: each well placed, by increasing cell id.
pub open spec fn files_ok(loc: &Locations, outer: u8, inner: u8, fs: Seq<SnapFile>) -> bool {
    &&& forall|f: int|
        0 <= f < fs.len() ==> buckets_ok(loc, outer, inner, fs[f].cell_id, (#[trigger] fs[f]).buckets@)
    &&& forall|f1: int, f2: int|
        0 <= f1 < f2 < fs.len() ==> (#[trigger] fs[f1]).cell_id < (#[trigger] fs[f2]).cell_id
}

/// Only cells that hold an edge appear: every file has a bucket, and every bucket
/// an entry.
pub open spec fn files_nonempty(fs: Seq<SnapFile>) -> bool {
    forall|f: int|
        0 <= f < fs.len() ==> (#[trigger] fs[f]).buckets@.len() > 0 && forall|b: int|
            0 <= b < fs[f].buckets@.len() ==> (#[trigger] fs[f].buckets@[b]).edge_indexes@.len() > 0
}

/// Edge `e` is held at entry `k` of bucket `b` of file `f`.
pub open spec fn holds(fs: Seq<SnapFile>, f: int, b: int, k: int, e: int) -> bool {
    &&& 0 <= f < fs.len()
    &&& 0 <= b < fs[f].buckets@.len()
    &&& 0 <= k < fs[f].buckets@[b].edge_indexes@.len()
    &&& fs[f].buckets@[b].edge_indexes@[k] == e
}

/// The key under which edge `e` is sorted: its outer cell, inner cell, index.
pub open spec fn key_of(loc: &Locations, outer: u8, inner: u8, e: int) -> (u64, u64, u64) {
    let r = rep_of(loc.edge_points@[e]@);
    (parent_of(r, outer), parent_of(r, inner), e as u64)
}

/// The representative cell of edge `e`.
fn rep_cell(loc: &Locations, e: usize) -> (r: u64)
    requires
        has_rep(loc, e as int),
    ensures
        r == rep_of(loc.edge_points@[e as int]@),
{
    let pts = &loc.edge_points[e];
    pts[(pts.len() - 1) / 2]
}

/// The sort keys of the edges that have a polyline, in edge order.
fn edge_keys(loc: &Locations, outer: u8, inner: u8) -> (r: Vec<(u64, u64, u64)>)
    requires
        outer <= MAX_LEVEL,
        inner <= MAX_LEVEL,
    ensures
        forall|i: int|
            0 <= i < r@.len() ==> has_rep(loc, (#[trigger] r@[i]).2 as int) && r@[i] == key_of(
                loc,
                outer,
                inner,
                r@[i].2 as int,
            ),
        forall|e: int| #[trigger] has_rep(loc, e) ==> r@.contains(key_of(loc, outer, inner, e)),
        r@.no_duplicates(),
{
    let mut r: Vec<(u64, u64, u64)> = Vec::new();
    let mut e: usize = 0;
    while e < loc.edge_points.len()
        invariant
            e <= loc.edge_points@.len(),
            outer <= MAX_LEVEL,
            inner <= MAX_LEVEL,
            forall|i: int|
                0 <= i < r@.len() ==> has_rep(loc, (#[trigger] r@[i]).2 as int) && r@[i].2 < e
                    && r@[i] == key_of(loc, outer, inner, r@[i].2 as int),
            forall|x: int| 0 <= x < e && #[trigger] has_rep(loc, x) ==> r@.contains(key_of(loc, outer, inner, x)),
            forall|i: int, j: int| 0 <= i < j < r@.len() ==> (#[trigger] r@[i]).2 < (#[trigger] r@[j]).2,
        decreases loc.edge_points@.len() - e,
    {
        if loc.edge_points[e].len() > 0 {
            let rep = rep_cell(loc, e);
            let key = (cell_parent(rep, outer), cell_parent(rep, inner), e as u64);
            let ghost r0 = r@;
            r.push(key);
            assert(r@[r@.len() - 1] == key);
            assert forall|x: int| 0 <= x < e + 1 && #[trigger] has_rep(loc, x) implies r@.contains(
                key_of(loc, outer, inner, x),
            ) by {
                if x < e {
                    let i = choose|i: int| 0 <= i < r0.len() && r0[i] == key_of(loc, outer, inner, x);
                    assert(r@[i] == r0[i]);
                }
            }
        }
        e = e + 1;
    }
    assert forall|i: int, j: int| 0 <= i < r@.len() && 0 <= j < r@.len() && i != j implies r@[i]
        != r@[j] by {
        if i < j {
            assert(r@[i].2 < r@[j].2);
        } else {
            assert(r@[j].2 < r@[i].2);
        }
    }
    r
}

/// Where an entry sits while the index is built: in a finished file, in a
/// finished bucket of the current file, or in the current bucket.
spec fn located(
    files: Seq<SnapFile>,
    cb: Seq<SnapBucket>,
    cur: SnapBucket,
    p: (int, int, int),
    e: int,
) -> bool {
    if p.0 < files.len() {
        holds(files, p.0, p.1, p.2, e)
    } else if p.0 == files.len() && p.1 < cb.len() {
        0 <= p.1 && 0 <= p.2 < cb[p.1].edge_indexes@.len() && cb[p.1].edge_indexes@[p.2] == e
    } else {
        p.0 == files.len() && p.1 == cb.len() && 0 <= p.2 < cur.edge_indexes@.len()
            && cur.edge_indexes@[p.2] == e
    }
}

proof fn lemma_flush(
    loc: &Locations,
    outer: u8,
    inner: u8,
    files0: Seq<SnapFile>,
    cb0: Seq<SnapBucket>,
    cur0: SnapBucket,
    nf: SnapFile,
    pos: Map<int, (int, int, int)>,
    keys: Seq<(u64, u64, u64)>,
    n: int,
)
    requires
        files_ok(loc, outer, inner, files0),
        buckets_ok(loc, outer, inner, nf.cell_id, cb0),
        bucket_ok(loc, outer, inner, nf.cell_id, cur0),
        forall|b: int| 0 <= b < cb0.len() ==> (#[trigger] cb0[b]).cell_id < cur0.cell_id,
        forall|f: int| 0 <= f < files0.len() ==> (#[trigger] files0[f]).cell_id < nf.cell_id,
        nf.buckets@ == cb0.push(cur0),
        files_nonempty(files0),
        forall|b: int| 0 <= b < cb0.len() ==> (#[trigger] cb0[b]).edge_indexes@.len() > 0,
        cur0.edge_indexes@.len() > 0,
        0 <= n <= keys.len(),
        forall|j: int|
            0 <= j < n ==> located(
                files0,
                cb0,
                cur0,
                #[trigger] pos[j],
                keys[j].2 as int,
            ),
    ensures
        files_ok(loc, outer, inner, files0.push(nf)),
        files_nonempty(files0.push(nf)),
        forall|j: int|
            0 <= j < n ==> located(
                files0.push(nf),
                Seq::<SnapBucket>::empty(),
                cur0,
                #[trigger] pos[j],
                keys[j].2 as int,
            ) && pos[j].0 < files0.len() + 1,
{
    let fs = files0.push(nf);
    assert forall|f: int| 0 <= f < fs.len() implies (#[trigger] fs[f]).buckets@.len() > 0 && forall|b: int|
        0 <= b < fs[f].buckets@.len() ==> (#[trigger] fs[f].buckets@[b]).edge_indexes@.len() > 0 by {
        if f < files0.len() {
            assert(fs[f] == files0[f]);
        } else {
            assert forall|b: int| 0 <= b < fs[f].buckets@.len() implies (#[trigger] fs[f].buckets@[b]).edge_indexes@.len()
                > 0 by {
                if b < cb0.len() {
                    assert(nf.buckets@[b] == cb0[b]);
                } else {
                    assert(nf.buckets@[b] == cur0);
                }
            }
        }
    }
    assert forall|b: int| 0 <= b < nf.buckets@.len() implies bucket_ok(
        loc,
        outer,
        inner,
        nf.cell_id,
        #[trigger] nf.buckets@[b],
    ) by {
        if b < cb0.len() {
            assert(nf.buckets@[b] == cb0[b]);
        }
    }
    assert forall|b1: int, b2: int| 0 <= b1 < b2 < nf.buckets@.len() implies (
    #[trigger] nf.buckets@[b1]).cell_id < (#[trigger] nf.buckets@[b2]).cell_id by {
        assert(nf.buckets@[b1] == cb0[b1]);
        if b2 < cb0.len() {
            assert(nf.buckets@[b2] == cb0[b2]);
        }
    }
    assert forall|f: int| 0 <= f < fs.len() implies buckets_ok(
        loc,
        outer,
        inner,
        fs[f].cell_id,
        (#[trigger] fs[f]).buckets@,
    ) by {
        if f < files0.len() {
            assert(fs[f] == files0[f]);
        }
    }
    assert forall|f1: int, f2: int| 0 <= f1 < f2 < fs.len() implies (#[trigger] fs[f1]).cell_id < (
    #[trigger] fs[f2]).cell_id by {
        assert(fs[f1] == files0[f1]);
        if f2 < files0.len() {
            assert(fs[f2] == files0[f2]);
        }
    }
    assert forall|j: int| 0 <= j < n implies located(
        fs,
        Seq::<SnapBucket>::empty(),
        cur0,
        #[trigger] pos[j],
        keys[j].2 as int,
    ) && pos[j].0 < files0.len() + 1 by {
        let p = pos[j];
        if p.0 < files0.len() {
            assert(fs[p.0] == files0[p.0]);
        } else if p.1 < cb0.len() {
            assert(nf.buckets@[p.1] == cb0[p.1]);
        } else {
            assert(nf.buckets@[p.1] == cur0);
        }
    }
}

/// Builds the snap index of `loc`: one file per outer-level cell that holds a
/// representative cell, by increasing cell id; in it one bucket per inner-level
/// cell, by increasing cell id; in a bucket the edges by increasing index with
/// their representative cells. Edges without a polyline are left out.
pub fn build_snap_files(loc: &Locations, outer: u8, inner: u8) -> (r: Vec<SnapFile>)
    requires
        outer < inner <= MAX_LEVEL,
        loc.edge_points@.len() <= u32::MAX,
    ensures
        files_ok(loc, outer, inner, r@),
        files_nonempty(r@),
        forall|e: int| #[trigger]
            has_rep(loc, e) ==> exists|f: int, b: int, k: int| holds(r@, f, b, k, e),
{
    let mut keys = edge_keys(loc, outer, inner);
    let ghost keys0 = keys@;
    sort_triples(&mut keys);
    proof {
        lemma_same_multiset(keys@, keys0);
        lemma_sorted_distinct_strict(keys@);
    }
    let mut files: Vec<SnapFile> = Vec::new();
    let mut cur_buckets: Vec<SnapBucket> = Vec::new();
    let mut cur = SnapBucket { cell_id: 0, edge_cell_ids: Vec::new(), edge_indexes: Vec::new() };
    let mut cur_outer: u64 = 0;
    let ghost mut pos: Map<int, (int, int, int)> = Map::empty();
    let mut i: usize = 0;
    while i < keys.len()
        invariant
            outer < inner <= MAX_LEVEL,
            loc.edge_points@.len() <= u32::MAX,
            i <= keys@.len(),
            forall|x: (u64, u64, u64)| keys0.contains(x) <==> keys@.contains(x),
            forall|a: int, b: int| 0 <= a < b < keys@.len() ==> triple_lt(#[trigger] keys@[a], #[trigger] keys@[b]),
            forall|a: int|
                0 <= a < keys0.len() ==> has_rep(loc, (#[trigger] keys0[a]).2 as int) && keys0[a]
                    == key_of(loc, outer, inner, keys0[a].2 as int),
            files_ok(loc, outer, inner, files@),
            files_nonempty(files@),
            forall|b: int| 0 <= b < cur_buckets@.len() ==> (#[trigger] cur_buckets@[b]).edge_indexes@.len() > 0,
            buckets_ok(loc, outer, inner, cur_outer, cur_buckets@),
            bucket_ok(loc, outer, inner, cur_outer, cur),
            i == 0 ==> files@.len() == 0 && cur_buckets@.len() == 0 && cur.edge_indexes@.len() == 0,
            i > 0 ==> {
                let t = keys@[i - 1];
                &&& cur_outer == t.0
                &&& cur.cell_id == t.1
                &&& cur.edge_indexes@.len() > 0
                &&& cur.edge_indexes@.last() == t.2
                &&& forall|f: int| 0 <= f < files@.len() ==> (#[trigger] files@[f]).cell_id < cur_outer
                &&& forall|b: int|
                    0 <= b < cur_buckets@.len() ==> (#[trigger] cur_buckets@[b]).cell_id < cur.cell_id
            },
            forall|j: int|
                0 <= j < i ==> located(
                    files@,
                    cur_buckets@,
                    cur,
                    #[trigger] pos[j],
                    keys@[j].2 as int,
                ),
        decreases keys@.len() - i,
    {
        let t = keys[i];
        assert(keys0.contains(t)) by {
            assert(keys@.contains(t)) by {
                assert(keys@[i as int] == t);
            }
        }
        assert(has_rep(loc, t.2 as int) && t == key_of(loc, outer, inner, t.2 as int));
        let rep = rep_cell(loc, t.2 as usize);
        let ghost files0 = files@;
        let ghost cb0 = cur_buckets@;
        let ghost cur0 = cur;
        if i > 0 {
            assert(triple_lt(keys@[i - 1], t));
        }
        if i == 0 || t.0 != cur_outer {
            if i > 0 {
                let mut finished = SnapBucket {
                    cell_id: 0,
                    edge_cell_ids: Vec::new(),
                    edge_indexes: Vec::new(),
                };
                std::mem::swap(&mut cur, &mut finished);
                cur_buckets.push(finished);
                let mut bs: Vec<SnapBucket> = Vec::new();
                std::mem::swap(&mut cur_buckets, &mut bs);
                let nf = SnapFile { cell_id: cur_outer, buckets: bs };
                proof {
                    lemma_flush(loc, outer, inner, files0, cb0, cur0, nf, pos, keys@, i as int);
                }
                files.push(nf);
            }
            cur_outer = t.0;
            cur = SnapBucket { cell_id: t.1, edge_cell_ids: Vec::new(), edge_indexes: Vec::new() };
            proof {
                assert forall|j: int| 0 <= j < i implies located(
                    files@,
                    cur_buckets@,
                    cur,
                    #[trigger] pos[j],
                    keys@[j].2 as int,
                ) by {
                    assert(cur_buckets@ == Seq::<SnapBucket>::empty());
                }
            }
        } else if t.1 != cur.cell_id {
            let mut finished = SnapBucket {
                cell_id: t.1,
                edge_cell_ids: Vec::new(),
                edge_indexes: Vec::new(),
            };
            std::mem::swap(&mut cur, &mut finished);
            cur_buckets.push(finished);
            proof {
                assert forall|b: int| 0 <= b < cur_buckets@.len() implies bucket_ok(
                    loc,
                    outer,
                    inner,
                    cur_outer,
                    #[trigger] cur_buckets@[b],
                ) by {
                    if b < cb0.len() {
                        assert(cur_buckets@[b] == cb0[b]);
                    }
                }
                assert forall|b1: int, b2: int| 0 <= b1 < b2 < cur_buckets@.len() implies (
                #[trigger] cur_buckets@[b1]).cell_id < (#[trigger] cur_buckets@[b2]).cell_id by {
                    assert(cur_buckets@[b1] == cb0[b1]);
                    if b2 < cb0.len() {
                        assert(cur_buckets@[b2] == cb0[b2]);
                    }
                }
                assert forall|j: int| 0 <= j < i implies located(
                    files@,
                    cur_buckets@,
                    cur,
                    #[trigger] pos[j],
                    keys@[j].2 as int,
                ) by {
                    let p = pos[j];
                    if p.0 == files@.len() && p.1 < cb0.len() {
                        assert(cur_buckets@[p.1] == cb0[p.1]);
                    } else if p.0 == files@.len() && p.1 == cb0.len() {
                        assert(cur_buckets@[p.1] == cur0);
                    }
                }
            }
        }
        let ghost cur1 = cur;
        assert(forall|f: int| 0 <= f < files@.len() ==> (#[trigger] files@[f]).cell_id < t.0);
        assert(forall|b: int| 0 <= b < cur_buckets@.len() ==> (#[trigger] cur_buckets@[b]).cell_id < t.1);
        assert(cur.edge_indexes@.len() > 0 ==> cur.edge_indexes@.last() < t.2);
        cur.edge_cell_ids.push(rep);
        cur.edge_indexes.push(t.2 as u32);
        proof {
            assert(entry_placed(loc, outer, inner, cur_outer, cur, cur.edge_indexes@.len() - 1));
            assert forall|k: int| 0 <= k < cur.edge_indexes@.len() implies #[trigger] entry_placed(
                loc,
                outer,
                inner,
                cur_outer,
                cur,
                k,
            ) by {
                if k < cur1.edge_indexes@.len() {
                    assert(entry_placed(loc, outer, inner, cur_outer, cur1, k));
                }
            }
            assert forall|k1: int, k2: int|
                0 <= k1 < k2 < cur.edge_indexes@.len() implies #[trigger] cur.edge_indexes@[k1]
                < #[trigger] cur.edge_indexes@[k2] by {
                if k2 < cur1.edge_indexes@.len() {
                    assert(cur1.edge_indexes@[k1] < cur1.edge_indexes@[k2]);
                } else if k1 < cur1.edge_indexes@.len() - 1 {
                    assert(cur1.edge_indexes@[k1] < cur1.edge_indexes@[cur1.edge_indexes@.len() - 1]);
                }
            }
            let ghost pos1 = pos;
            pos = pos.insert(
                i as int,
                (files@.len() as int, cur_buckets@.len() as int, cur.edge_indexes@.len() - 1),
            );
            assert forall|j: int| 0 <= j < i + 1 implies located(
                files@,
                cur_buckets@,
                cur,
                #[trigger] pos[j],
                keys@[j].2 as int,
            ) by {
                if j < i {
                    assert(pos[j] == pos1[j]);
                    assert(located(files@, cur_buckets@, cur1, pos1[j], keys@[j].2 as int));
                    let p = pos[j];
                    if p.0 == files@.len() && p.1 == cur_buckets@.len() {
                        assert(cur.edge_indexes@[p.2] == cur1.edge_indexes@[p.2]);
                    }
                }
            }
        }
        i = i + 1;
    }
    if i > 0 {
        let ghost files0 = files@;
        let ghost cb0 = cur_buckets@;
        let ghost cur0 = cur;
        assert forall|j: int| 0 <= j < i implies located(
            files0,
            cb0,
            cur0,
            #[trigger] pos[j],
            keys@[j].2 as int,
        ) by {
            let p = pos[j];
            assert(located(files@, cur_buckets@, cur, p, keys@[j].2 as int));
        }
        cur_buckets.push(cur);
        let nf = SnapFile { cell_id: cur_outer, buckets: cur_buckets };
        proof {
            lemma_flush(loc, outer, inner, files0, cb0, cur0, nf, pos, keys@, i as int);
        }
        files.push(nf);
    }
    proof {
        assert forall|e: int| #[trigger] has_rep(loc, e) implies exists|f: int, b: int, k: int|
            holds(files@, f, b, k, e) by {
            let key = key_of(loc, outer, inner, e);
            assert(keys0.contains(key));
            assert(keys@.contains(key));
            let j = choose|j: int| 0 <= j < keys@.len() && keys@[j] == key;
            let p = pos[j];
            assert(located(files@, Seq::<SnapBucket>::empty(), cur, p, keys@[j].2 as int));
            assert(holds(files@, p.0, p.1, p.2, e));
        }
    }
    files
}

/// The snap index partitions the edges: an edge held at two entries of a well
/// placed index is held at one and the same entry, of one file and one bucket.
pub proof fn lemma_snap_partition(
    loc: &Locations,
    outer: u8,
    inner: u8,
    fs: Seq<SnapFile>,
    e: int,
    f1: int,
    b1: int,
    k1: int,
    f2: int,
    b2: int,
    k2: int,
)
    requires
        files_ok(loc, outer, inner, fs),
        holds(fs, f1, b1, k1, e),
        holds(fs, f2, b2, k2, e),
    ensures
        f1 == f2,
        b1 == b2,
        k1 == k2,
{
    let bs1 = fs[f1].buckets@;
    let bs2 = fs[f2].buckets@;
    assert(buckets_ok(loc, outer, inner, fs[f1].cell_id, bs1));
    assert(buckets_ok(loc, outer, inner, fs[f2].cell_id, bs2));
    assert(bucket_ok(loc, outer, inner, fs[f1].cell_id, bs1[b1]));
    assert(bucket_ok(loc, outer, inner, fs[f2].cell_id, bs2[b2]));
    assert(entry_placed(loc, outer, inner, fs[f1].cell_id, bs1[b1], k1));
    assert(entry_placed(loc, outer, inner, fs[f2].cell_id, bs2[b2], k2));
    if f1 < f2 {
        assert(fs[f1].cell_id < fs[f2].cell_id);
    } else if f2 < f1 {
        assert(fs[f2].cell_id < fs[f1].cell_id);
    }
    if b1 < b2 {
        assert(bs1[b1].cell_id < bs1[b2].cell_id);
    } else if b2 < b1 {
        assert(bs1[b2].cell_id < bs1[b1].cell_id);
    }
    let b = bs1[b1];
    if k1 < k2 {
        assert(b.edge_indexes@[k1] < b.edge_indexes@[k2]);
    } else if k2 < k1 {
        assert(b.edge_indexes@[k2] < b.edge_indexes@[k1]);
    }
}

} // verus!
