//! Graph construction: from OSM nodes and highway ways to the deduplicated,
//! cell-ordered intersection graph, its locations and its edge costs.

use vstd::prelude::*;
use vstd::string::{StrSliceExecFns, StringExecFns};
use crate::cell::{arc_between, arc_e7, is_leaf_cell, leaf_at, leaf_cell};
use crate::graph::{
    back_allowed, seconds_of, Edge, Graph, GraphNode, Interaction, MAX_SECONDS, SIGNAL_LIGHT,
    SIGNAL_NONE, SIGNAL_STOP, SIGNAL_YIELD,
};
use crate::snapbuild::Locations;
use crate::order::{lemma_same_multiset, sort_triples, triple_le, triples_sorted};

verus! {

/// An OSM node: its id, its position in 1e-7 degrees, and its tags.
#[derive(Clone, Debug)]
pub struct OsmNode {
    pub id: i64,
    pub lat_e7: i32,
    pub lng_e7: i32,
    pub tags: Vec<(String, String)>,
}

/// An OSM way: its id, the ids of its nodes in order, and its tags.
#[derive(Clone, Debug)]
pub struct OsmWay {
    pub id: i64,
    pub nodes: Vec<i64>,
    pub tags: Vec<(String, String)>,
}

/// The value of the first tag named `key`.
pub open spec fn tag_of(tags: Seq<(String, String)>, key: Seq<char>) -> Option<Seq<char>>
    decreases tags.len(),
{
    if tags.len() == 0 {
        None
    } else if tags[0].0@ == key {
        Some(tags[0].1@)
    } else {
        tag_of(tags.drop_first(), key)
    }
}

/// The character is an ASCII digit.
pub open spec fn is_digit(c: char) -> bool {
    '0' <= c <= '9'
}

/// The value of a string of ASCII digits.
pub open spec fn digits_value(s: Seq<char>) -> int
    decreases s.len(),
{
    if s.len() == 0 {
        0
    } else {
        digits_value(s.drop_last()) * 10 + (s.last() as int - '0' as int)
    }
}

/// The digits of a decimal text: the text after an optional leading `+`.
pub open spec fn digits_part(s: Seq<char>) -> Seq<char> {
    if s.len() > 0 && s[0] == '+' {
        s.drop_first()
    } else {
        s
    }
}

/// The value of a decimal text: an optional `+`, then one or more ASCII digits,
/// of value at most `u32::MAX`; none for any other text.
pub open spec fn decimal_of(s: Seq<char>) -> Option<u32> {
    let d = digits_part(s);
    if d.len() > 0 && (forall|i: int| 0 <= i < d.len() ==> is_digit(#[trigger] d[i])) && digits_value(d)
        <= u32::MAX {
        Some(digits_value(d) as u32)
    } else {
        None
    }
}

proof fn lemma_digits_grow(s: Seq<char>, c: char)
    requires
        is_digit(c),
    ensures
        digits_value(s.push(c)) >= digits_value(s) * 10,
        digits_value(s.push(c)) == digits_value(s) * 10 + (c as int - '0' as int),
{
    assert(s.push(c).drop_last() == s);
}

proof fn lemma_digits_nonneg(s: Seq<char>)
    requires
        forall|i: int| 0 <= i < s.len() ==> is_digit(#[trigger] s[i]),
    ensures
        digits_value(s) >= 0,
    decreases s.len(),
{
    if s.len() > 0 {
        let d = s.drop_last();
        assert forall|i: int| 0 <= i < d.len() implies is_digit(#[trigger] d[i]) by {
            assert(d[i] == s[i]);
        }
        lemma_digits_nonneg(d);
        assert(is_digit(s[s.len() - 1]));
    }
}

/// The value of a decimal text, as `str::parse::<u32>` reads it.
pub fn parse_decimal(s: &str) -> (r: Option<u32>)
    ensures
        r == decimal_of(s@),
{
    let n = s.unicode_len();
    let mut i: usize = 0;
    if n > 0 && s.get_char(0) == '+' {
        i = 1;
    }
    let ghost d = digits_part(s@);
    assert(d == s@.subrange(i as int, n as int));
    if i >= n {
        return None;
    }
    let ghost from = i;
    let mut acc: u64 = 0;
    let mut over = false;
    while i < n
        invariant
            n == s@.len(),
            from <= i <= n,
            from < n,
            d == s@.subrange(from as int, n as int),
            d == digits_part(s@),
            forall|k: int| 0 <= k < i - from ==> is_digit(#[trigger] d[k]),
            !over ==> acc == digits_value(d.take(i - from)) && acc <= u32::MAX,
            over ==> digits_value(d.take(i - from)) > u32::MAX,
        decreases n - i,
    {
        let c = s.get_char(i);
        assert(c == d[i - from]);
        if !('0' <= c && c <= '9') {
            proof {
                let k = i - from;
                assert(0 <= k < d.len());
                assert(!is_digit(d[k]));
                assert(!(forall|j: int| 0 <= j < d.len() ==> is_digit(#[trigger] d[j])));
            }
            return None;
        }
        proof {
            assert(d.take(i - from + 1) == d.take(i - from).push(c));
            lemma_digits_grow(d.take(i - from), c);
            assert forall|k: int| 0 <= k < d.take(i - from).len() implies is_digit(#[trigger] d.take(i - from)[k]) by {
                assert(d.take(i - from)[k] == d[k]);
            }
            lemma_digits_nonneg(d.take(i - from));
        }
        if !over {
            let v = acc * 10 + ((c as u32) - ('0' as u32)) as u64;
            if v > 0xffff_ffffu64 {
                over = true;
            } else {
                acc = v;
            }
        }
        i = i + 1;
    }
    assert(d.take(n - from) == d);
    if over {
        None
    } else {
        Some(acc as u32)
    }
}

/// Whether `s` is the text `lit`.
fn text_is(s: &String, lit: &str) -> (r: bool)
    ensures
        r == (s@ == lit@),
{
    let w = String::from_str(lit);
    *s == w
}

/// The value of the first tag named `key`.
fn find_tag<'a>(tags: &'a Vec<(String, String)>, key: &str) -> (r: Option<&'a String>)
    ensures
        match r {
            Some(v) => tag_of(tags@, key@) == Some(v@),
            None => tag_of(tags@, key@) is None,
        },
{
    let mut i: usize = 0;
    assert(tags@.skip(0) == tags@);
    while i < tags.len()
        invariant
            i <= tags@.len(),
            tag_of(tags@, key@) == tag_of(tags@.skip(i as int), key@),
        decreases tags@.len() - i,
    {
        assert(tags@.skip(i as int).drop_first() == tags@.skip(i + 1));
        if text_is(&tags[i].0, key) {
            return Some(&tags[i].1);
        }
        i = i + 1;
    }
    assert(tags@.skip(i as int).len() == 0);
    None
}

/// The car speed of a highway class in km/h, 0 where cars are not allowed.
pub open spec fn class_car_speed(h: Seq<char>) -> u32 {
    if h == "motorway"@ || h == "motorway_link"@ {
        100
    } else if h == "trunk"@ || h == "trunk_link"@ {
        80
    } else if h == "primary"@ || h == "primary_link"@ {
        60
    } else if h == "secondary"@ || h == "secondary_link"@ {
        50
    } else if h == "tertiary"@ || h == "tertiary_link"@ {
        40
    } else if h == "residential"@ || h == "unclassified"@ {
        30
    } else if h == "service"@ {
        20
    } else if h == "living_street"@ {
        10
    } else if h == "pedestrian"@ || h == "cycleway"@ || h == "footway"@ || h == "path"@ || h
        == "steps"@ {
        0
    } else {
        30
    }
}

/// The car speed of a way in km/h, 0 where cars are not allowed: a `maxspeed`
/// that reads as a number, else the speed of its `highway` class.
pub open spec fn way_car_speed(tags: Seq<(String, String)>) -> u32 {
    match tag_of(tags, "maxspeed"@) {
        Some(m) if decimal_of(m) is Some => decimal_of(m)->Some_0,
        _ => match tag_of(tags, "highway"@) {
            Some(h) => class_car_speed(h),
            None => 30,
        },
    }
}

/// The way is one-way: its `oneway` tag is `yes`.
pub open spec fn way_one_way(tags: Seq<(String, String)>) -> bool {
    tag_of(tags, "oneway"@) == Some("yes"@)
}

/// The traffic-control regime of a node, from its `highway` tag.
pub open spec fn node_signal(tags: Seq<(String, String)>) -> u8 {
    match tag_of(tags, "highway"@) {
        Some(h) => if h == "traffic_signals"@ {
            SIGNAL_LIGHT
        } else if h == "stop"@ {
            SIGNAL_STOP
        } else if h == "give_way"@ {
            SIGNAL_YIELD
        } else {
            SIGNAL_NONE
        },
        None => SIGNAL_NONE,
    }
}

/// The car speed of a highway class.
pub fn class_speed(h: &String) -> (r: u32)
    ensures
        r == class_car_speed(h@),
{
    if text_is(h, "motorway") || text_is(h, "motorway_link") {
        100
    } else if text_is(h, "trunk") || text_is(h, "trunk_link") {
        80
    } else if text_is(h, "primary") || text_is(h, "primary_link") {
        60
    } else if text_is(h, "secondary") || text_is(h, "secondary_link") {
        50
    } else if text_is(h, "tertiary") || text_is(h, "tertiary_link") {
        40
    } else if text_is(h, "residential") || text_is(h, "unclassified") {
        30
    } else if text_is(h, "service") {
        20
    } else if text_is(h, "living_street") {
        10
    } else if text_is(h, "pedestrian") || text_is(h, "cycleway") || text_is(h, "footway")
        || text_is(h, "path") || text_is(h, "steps") {
        0
    } else {
        30
    }
}

/// The car speed of a way in km/h, 0 where cars are not allowed.
pub fn car_speed(tags: &Vec<(String, String)>) -> (r: u32)
    ensures
        r == way_car_speed(tags@),
{
    if let Some(m) = find_tag(tags, "maxspeed") {
        if let Some(v) = parse_decimal(m.as_str()) {
            return v;
        }
    }
    match find_tag(tags, "highway") {
        Some(h) => class_speed(h),
        None => 30,
    }
}

/// Whether a way is one-way.
pub fn is_one_way(tags: &Vec<(String, String)>) -> (r: bool)
    ensures
        r == way_one_way(tags@),
{
    match find_tag(tags, "oneway") {
        Some(v) => text_is(v, "yes"),
        None => false,
    }
}

/// Whether a way is a highway: it has a `highway` tag.
pub fn is_highway(tags: &Vec<(String, String)>) -> (r: bool)
    ensures
        r == (tag_of(tags@, "highway"@) is Some),
{
    find_tag(tags, "highway").is_some()
}

/// The traffic-control regime of a node.
pub fn signal_of(tags: &Vec<(String, String)>) -> (r: u8)
    ensures
        r == node_signal(tags@),
{
    match find_tag(tags, "highway") {
        Some(h) => if text_is(h, "traffic_signals") {
            SIGNAL_LIGHT
        } else if text_is(h, "stop") {
            SIGNAL_STOP
        } else if text_is(h, "give_way") {
            SIGNAL_YIELD
        } else {
            SIGNAL_NONE
        },
        None => SIGNAL_NONE,
    }
}

/// Millionths of a millimetre per 1e-7 degree of arc on a sphere of radius
/// 6,371,000 m: `6_371_000 * pi / 180 / 1e7` m is 11.119493 mm.
pub const NANOMETRES_PER_E7: u64 = 11_119_493;

/// The traversal time in seconds of an arc of `arc_e7` (1e-7 degrees) at
/// `speed_kmh`, rounded down and held in [1, MAX_SECONDS]; MAX_SECONDS where cars
/// are not allowed (speed 0).
pub open spec fn seconds_for(arc_e7: int, speed_kmh: int) -> u16 {
    if speed_kmh <= 0 {
        MAX_SECONDS
    } else {
        let mm = arc_e7 * NANOMETRES_PER_E7 / 1_000_000;
        let secs = mm * 36 / (speed_kmh * 10_000);
        if secs < 1 {
            1
        } else if secs > MAX_SECONDS {
            MAX_SECONDS
        } else {
            secs as u16
        }
    }
}

/// The traversal time of an arc at a car speed.
pub fn travel_seconds(arc_e7: i32, speed_kmh: u32) -> (r: u16)
    requires
        arc_e7 >= 0,
    ensures
        r == seconds_for(arc_e7 as int, speed_kmh as int),
        1 <= r <= MAX_SECONDS,
{
    if speed_kmh == 0 {
        return MAX_SECONDS;
    }
    let arc = arc_e7 as u64;
    assert(arc * 11_119_493 <= 0x7fff_ffff * 11_119_493) by (nonlinear_arith)
        requires
            arc <= 0x7fff_ffff,
    ;
    let mm = arc * NANOMETRES_PER_E7 / 1_000_000;
    assert(mm <= 0x7fff_ffff * 11_119_493 / 1_000_000) by (nonlinear_arith)
        requires
            mm == arc * 11_119_493 / 1_000_000,
            arc * 11_119_493 <= 0x7fff_ffff * 11_119_493,
    ;
    let secs = mm * 36 / (speed_kmh as u64 * 10_000);
    if secs < 1 {
        1
    } else if secs > MAX_SECONDS as u64 {
        MAX_SECONDS
    } else {
        secs as u16
    }
}

/// The packed cost and flags of an edge: the seconds in bits 3..15 and the
/// travel-back flag in bit 0.
pub fn pack_costs(seconds: u16, back: bool) -> (r: u16)
    requires
        seconds <= MAX_SECONDS,
    ensures
        r >> 3u16 == seconds,
        (r & 1 == 1) == back,
{
    let b: u16 = if back {
        1
    } else {
        0
    };
    let r: u16 = (seconds << 3u16) | b;
    assert((((seconds << 3u16) | b) >> 3u16) == seconds && ((((seconds << 3u16) | b) & 1u16)
        == b)) by (bit_vector)
        requires
            seconds <= 8191u16,
            b <= 1u16,
    ;
    r
}

/// The node ids, each with its position, sorted: the lookup table of `nodes`.
fn node_lookup(nodes: &Vec<OsmNode>) -> (r: Vec<(u64, u64, u64)>)
    ensures
        triples_sorted(r@),
        forall|x: (u64, u64, u64)|
            r@.contains(x) <==> (x.1 < nodes@.len() && x.0 == nodes@[x.1 as int].id as u64 && x.2
                == 0),
{
    let mut r: Vec<(u64, u64, u64)> = Vec::new();
    let mut p: usize = 0;
    while p < nodes.len()
        invariant
            p <= nodes@.len(),
            r@.len() == p,
            forall|q: int| 0 <= q < p ==> #[trigger] r@[q] == (nodes@[q].id as u64, q as u64, 0u64),
        decreases nodes@.len() - p,
    {
        r.push((nodes[p].id as u64, p as u64, 0));
        p = p + 1;
    }
    let ghost r0 = r@;
    assert forall|x: (u64, u64, u64)|
        r0.contains(x) <==> (x.1 < nodes@.len() && x.0 == nodes@[x.1 as int].id as u64 && x.2
            == 0) by {
        if x.1 < nodes@.len() && x.0 == nodes@[x.1 as int].id as u64 && x.2 == 0 {
            assert(r0[x.1 as int] == x);
        }
    }
    sort_triples(&mut r);
    proof {
        lemma_same_multiset(r@, r0);
    }
    r
}

/// Position `p` holds the first node of id `id`.
pub open spec fn first_with_id(nodes: Seq<OsmNode>, id: i64, p: int) -> bool {
    &&& 0 <= p < nodes.len()
    &&& nodes[p].id == id
    &&& forall|q: int| 0 <= q < p ==> (#[trigger] nodes[q]).id != id
}

/// The position of the first node of id `id`, if any.
pub open spec fn node_pos(nodes: Seq<OsmNode>, id: i64) -> Option<int> {
    if exists|p: int| first_with_id(nodes, id, p) {
        Some(choose|p: int| first_with_id(nodes, id, p))
    } else {
        None
    }
}

/// The positions of the nodes of a way that can be found, in way order.
pub open spec fn way_pos(nodes: Seq<OsmNode>, ids: Seq<i64>) -> Seq<usize>
    decreases ids.len(),
{
    if ids.len() == 0 {
        Seq::empty()
    } else {
        let prev = way_pos(nodes, ids.drop_last());
        match node_pos(nodes, ids.last()) {
            Some(p) => prev.push(p as usize),
            None => prev,
        }
    }
}

proof fn lemma_first_unique(nodes: Seq<OsmNode>, id: i64, p: int, q: int)
    requires
        first_with_id(nodes, id, p),
        first_with_id(nodes, id, q),
    ensures
        p == q,
{
    if p < q {
        assert(nodes[p].id != id);
    } else if q < p {
        assert(nodes[q].id != id);
    }
}

proof fn lemma_id_cast(a: i64, b: i64)
    requires
        a as u64 == b as u64,
    ensures
        a == b,
{
    assert(a == b) by (bit_vector)
        requires
            a as u64 == b as u64,
    ;
}

/// The position of a node of id `id`, found in the lookup table.
fn resolve(lookup: &Vec<(u64, u64, u64)>, nodes: &Vec<OsmNode>, id: i64) -> (r: Option<usize>)
    requires
        triples_sorted(lookup@),
        forall|x: (u64, u64, u64)|
            lookup@.contains(x) <==> (x.1 < nodes@.len() && x.0 == nodes@[x.1 as int].id as u64
                && x.2 == 0),
    ensures
        r matches Some(p) ==> first_with_id(nodes@, id, p as int),
        r is None ==> forall|p: int| 0 <= p < nodes@.len() ==> (#[trigger] nodes@[p]).id != id,
{
    let key = id as u64;
    let n = nodes.len();
    assert(n as int == nodes@.len());
    let mut lo: usize = 0;
    let mut hi: usize = lookup.len();
    while lo < hi
        invariant
            0 <= lo <= hi <= lookup@.len(),
            triples_sorted(lookup@),
            forall|m: int| 0 <= m < lo ==> (#[trigger] lookup@[m]).0 < key,
            forall|m: int| hi <= m < lookup@.len() ==> (#[trigger] lookup@[m]).0 >= key,
        decreases hi - lo,
    {
        let mid = lo + (hi - lo) / 2;
        if lookup[mid].0 < key {
            assert forall|m: int| 0 <= m < mid + 1 implies (#[trigger] lookup@[m]).0 < key by {
                if m < mid {
                    assert(triple_le(lookup@[m], lookup@[mid as int]));
                }
            }
            lo = mid + 1;
        } else {
            assert forall|m: int| mid <= m < lookup@.len() implies (#[trigger] lookup@[m]).0 >= key by {
                if m > mid {
                    assert(triple_le(lookup@[mid as int], lookup@[m]));
                }
            }
            hi = mid;
        }
    }
    if lo < lookup.len() && lookup[lo].0 == key {
        let x = lookup[lo];
        assert(lookup@.contains(x)) by {
            assert(lookup@[lo as int] == x);
        }
        proof {
            lemma_id_cast(nodes@[x.1 as int].id, id);
            assert forall|q: int| 0 <= q < x.1 implies (#[trigger] nodes@[q]).id != id by {
                if nodes@[q].id == id {
                    let y = (key, q as u64, 0u64);
                    assert(y.1 as int == q);
                    assert(y.1 < nodes@.len() && y.0 == nodes@[y.1 as int].id as u64 && y.2 == 0);
                    assert(lookup@.contains(y));
                    let m = choose|m: int| 0 <= m < lookup@.len() && lookup@[m] == y;
                    if m < lo {
                        assert(lookup@[m].0 < key);
                    } else if m > lo {
                        assert(triple_le(lookup@[lo as int], lookup@[m]));
                    }
                }
            }
        }
        assert((x.1 as usize) as int == x.1 as int);
        Some(x.1 as usize)
    } else {
        proof {
            assert forall|p: int| 0 <= p < nodes@.len() implies (#[trigger] nodes@[p]).id != id by {
                if nodes@[p].id == id {
                    let x = (key, p as u64, 0u64);
                    assert(x.1 as int == p);
                    assert(x.1 < nodes@.len() && x.0 == nodes@[x.1 as int].id as u64 && x.2 == 0);
                    assert(lookup@.contains(x));
                    let m = choose|m: int| 0 <= m < lookup@.len() && lookup@[m] == x;
                    if m < lo {
                    } else if lo < lookup@.len() {
                        assert(triple_le(lookup@[lo as int], lookup@[m])) by {
                            if m > lo {
                            }
                        }
                    }
                }
            }
        }
        None
    }
}

/// The positions of the nodes of a way that can be found, in way order.
fn way_positions(lookup: &Vec<(u64, u64, u64)>, nodes: &Vec<OsmNode>, way: &OsmWay) -> (r: Vec<
    usize,
>)
    requires
        triples_sorted(lookup@),
        forall|x: (u64, u64, u64)|
            lookup@.contains(x) <==> (x.1 < nodes@.len() && x.0 == nodes@[x.1 as int].id as u64
                && x.2 == 0),
    ensures
        forall|k: int| 0 <= k < r@.len() ==> #[trigger] r@[k] < nodes@.len(),
        r@.len() <= way.nodes@.len(),
        r@ == way_pos(nodes@, way.nodes@),
{
    let mut r: Vec<usize> = Vec::new();
    let mut k: usize = 0;
    assert(way.nodes@.take(0) == Seq::<i64>::empty());
    while k < way.nodes.len()
        invariant
            k <= way.nodes@.len(),
            r@.len() <= k,
            triples_sorted(lookup@),
            forall|x: (u64, u64, u64)|
                lookup@.contains(x) <==> (x.1 < nodes@.len() && x.0 == nodes@[x.1 as int].id as u64
                    && x.2 == 0),
            forall|j: int| 0 <= j < r@.len() ==> #[trigger] r@[j] < nodes@.len(),
            r@ == way_pos(nodes@, way.nodes@.take(k as int)),
        decreases way.nodes@.len() - k,
    {
        let id = way.nodes[k];
        let found = resolve(lookup, nodes, id);
        proof {
            let t = way.nodes@.take(k + 1);
            assert(t.drop_last() == way.nodes@.take(k as int));
            assert(t.last() == id);
            match found {
                Some(p) => {
                    assert(exists|q: int| first_with_id(nodes@, id, q));
                    let q = choose|q: int| first_with_id(nodes@, id, q);
                    lemma_first_unique(nodes@, id, p as int, q);
                },
                None => {
                    assert(!exists|q: int| first_with_id(nodes@, id, q));
                },
            }
        }
        if let Some(p) = found {
            r.push(p);
        }
        k = k + 1;
    }
    assert(way.nodes@.take(k as int) == way.nodes@);
    r
}

/// Position `p` lies on way list `w`.
pub open spec fn on_way(lists: Seq<Seq<usize>>, w: int, p: usize) -> bool {
    0 <= w < lists.len() && lists[w].contains(p)
}

/// Node position `p` is an intersection of the ways: two ways pass it, or it
/// begins or ends a way.
pub open spec fn is_crossing(lists: Seq<Seq<usize>>, p: usize) -> bool {
    (exists|w1: int, w2: int| w1 < w2 && #[trigger] on_way(lists, w1, p) && #[trigger] on_way(lists, w2, p))
        || (exists|w: int|
        0 <= w < lists.len() && #[trigger] lists[w].len() > 0 && (lists[w][0] == p
            || lists[w].last() == p))
}

/// Marks the node positions that are intersections of the ways.
fn find_crossings(n: usize, lists: &Vec<Vec<usize>>) -> (r: Vec<bool>)
    requires
        forall|w: int, k: int|
            0 <= w < lists@.len() && 0 <= k < lists@[w]@.len() ==> #[trigger] lists@[w]@[k] < n,
        lists@.len() < usize::MAX,
    ensures
        r@.len() == n,
        forall|p: int|
            0 <= p < n ==> #[trigger] r@[p] == is_crossing(lists@.map_values(|l: Vec<usize>| l@), p as usize),
{
    let ghost ls = lists@.map_values(|l: Vec<usize>| l@);
    let mut seen: Vec<bool> = vec![false; n];
    let mut multi: Vec<bool> = vec![false; n];
    let mut ends: Vec<bool> = vec![false; n];
    let mut mark: Vec<usize> = vec![0usize; n];
    let mut w: usize = 0;
    while w < lists.len()
        invariant
            w <= lists@.len(),
            lists@.len() < usize::MAX,
            ls == lists@.map_values(|l: Vec<usize>| l@),
            seen@.len() == n && multi@.len() == n && ends@.len() == n && mark@.len() == n,
            forall|ww: int, k: int|
                0 <= ww < lists@.len() && 0 <= k < lists@[ww]@.len() ==> #[trigger] lists@[ww]@[k]
                    < n,
            forall|p: int| 0 <= p < n ==> #[trigger] mark@[p] <= w,
            forall|p: int|
                0 <= p < n ==> #[trigger] seen@[p] == exists|v: int| 0 <= v < w && #[trigger] on_way(ls, v, p as usize),
            forall|p: int|
                0 <= p < n ==> #[trigger] multi@[p] == exists|w1: int, w2: int|
                    0 <= w1 < w2 < w && #[trigger] on_way(ls, w1, p as usize) && #[trigger] on_way(ls, w2, p as usize),
            forall|p: int|
                0 <= p < n ==> #[trigger] ends@[p] == exists|v: int|
                    0 <= v < w && #[trigger] ls[v].len() > 0 && (ls[v][0] == p as usize || ls[v].last() == p as usize),
        decreases lists@.len() - w,
    {
        let list = &lists[w];
        assert(ls[w as int] == list@);
        let ghost seen0 = seen@;
        let mut k: usize = 0;
        while k < list.len()
            invariant
                w < lists@.len(),
                lists@.len() < usize::MAX,
                ls == lists@.map_values(|l: Vec<usize>| l@),
                ls[w as int] == list@,
                k <= list@.len(),
                seen@.len() == n && multi@.len() == n && mark@.len() == n && seen0.len() == n,
                forall|j: int| 0 <= j < list@.len() ==> #[trigger] list@[j] < n,
                forall|p: int| 0 <= p < n ==> #[trigger] mark@[p] <= w + 1,
                forall|p: int|
                    0 <= p < n ==> (#[trigger] mark@[p] == w + 1 <==> list@.take(k as int).contains(p as usize)),
                forall|p: int|
                    0 <= p < n ==> #[trigger] seen0[p] == exists|v: int| 0 <= v < w && #[trigger] on_way(ls, v, p as usize),
                forall|p: int|
                    0 <= p < n ==> #[trigger] seen@[p] == (seen0[p] || list@.take(k as int).contains(p as usize)),
                forall|p: int|
                    0 <= p < n ==> #[trigger] multi@[p] == ((exists|w1: int, w2: int|
                        0 <= w1 < w2 < w && #[trigger] on_way(ls, w1, p as usize) && #[trigger] on_way(ls, w2, p as usize))
                        || (seen0[p] && list@.take(k as int).contains(p as usize))),
            decreases list@.len() - k,
        {
            let p = list[k];
            proof {
                assert(list@.take(k + 1) == list@.take(k as int).push(p));
                assert forall|x: usize| list@.take(k + 1).contains(x) == (list@.take(k as int).contains(x) || x == p) by {
                    crate::search::lemma_push_contains_usize(list@.take(k as int), p, x);
                }
            }
            if mark[p] != w + 1 {
                if seen[p] {
                    multi[p] = true;
                }
                seen[p] = true;
                mark[p] = w + 1;
            }
            k = k + 1;
        }
        assert(list@.take(k as int) == list@);
        if list.len() > 0 {
            let a = list[0];
            let b = list[list.len() - 1];
            ends[a] = true;
            ends[b] = true;
        }
        proof {
            assert forall|p: int| 0 <= p < n implies #[trigger] seen@[p] == exists|v: int|
                0 <= v < w + 1 && #[trigger] on_way(ls, v, p as usize) by {
                if seen0[p] {
                    let v = choose|v: int| 0 <= v < w && #[trigger] on_way(ls, v, p as usize);
                }
                if list@.contains(p as usize) {
                    assert(on_way(ls, w as int, p as usize));
                }
            }
            assert forall|p: int| 0 <= p < n implies #[trigger] multi@[p] == exists|w1: int, w2: int|
                0 <= w1 < w2 < w + 1 && #[trigger] on_way(ls, w1, p as usize) && #[trigger] on_way(ls, w2, p as usize) by {
                if seen0[p] && list@.contains(p as usize) {
                    let v = choose|v: int| 0 <= v < w && #[trigger] on_way(ls, v, p as usize);
                    assert(on_way(ls, w as int, p as usize));
                }
                if exists|w1: int, w2: int|
                    0 <= w1 < w2 < w + 1 && #[trigger] on_way(ls, w1, p as usize) && #[trigger] on_way(ls, w2, p as usize) {
                    let (w1, w2) = choose|w1: int, w2: int|
                        0 <= w1 < w2 < w + 1 && #[trigger] on_way(ls, w1, p as usize) && #[trigger] on_way(ls, w2, p as usize);
                    if w2 == w {
                        assert(on_way(ls, w1, p as usize));
                    } else {
                        assert(0 <= w1 < w2 < w && on_way(ls, w1, p as usize) && on_way(ls, w2, p as usize));
                    }
                }
            }
            assert forall|p: int| 0 <= p < n implies #[trigger] ends@[p] == exists|v: int|
                0 <= v < w + 1 && #[trigger] ls[v].len() > 0 && (ls[v][0] == p as usize || ls[v].last() == p as usize) by {
                if exists|v: int|
                    0 <= v < w + 1 && #[trigger] ls[v].len() > 0 && (ls[v][0] == p as usize || ls[v].last() == p as usize) {
                    let v = choose|v: int|
                        0 <= v < w + 1 && #[trigger] ls[v].len() > 0 && (ls[v][0] == p as usize || ls[v].last() == p as usize);
                    if v < w {
                    }
                }
            }
        }
        w = w + 1;
    }
    let mut r: Vec<bool> = Vec::new();
    let mut p: usize = 0;
    while p < n
        invariant
            p <= n,
            r@.len() == p,
            w == lists@.len(),
            ls == lists@.map_values(|l: Vec<usize>| l@),
            multi@.len() == n && ends@.len() == n,
            forall|q: int|
                0 <= q < n ==> #[trigger] multi@[q] == exists|w1: int, w2: int|
                    0 <= w1 < w2 < w && #[trigger] on_way(ls, w1, q as usize) && #[trigger] on_way(ls, w2, q as usize),
            forall|q: int|
                0 <= q < n ==> #[trigger] ends@[q] == exists|v: int|
                    0 <= v < w && #[trigger] ls[v].len() > 0 && (ls[v][0] == q as usize || ls[v].last() == q as usize),
            forall|q: int| 0 <= q < p ==> #[trigger] r@[q] == is_crossing(ls, q as usize),
        decreases n - p,
    {
        r.push(multi[p] || ends[p]);
        proof {
            if exists|w1: int, w2: int| w1 < w2 && #[trigger] on_way(ls, w1, p) && #[trigger] on_way(ls, w2, p) {
                let (w1, w2) = choose|w1: int, w2: int| w1 < w2 && #[trigger] on_way(ls, w1, p) && #[trigger] on_way(ls, w2, p);
                assert(0 <= w1 < w2 < w && on_way(ls, w1, p) && on_way(ls, w2, p));
            }
            if exists|v: int| 0 <= v < ls.len() && #[trigger] ls[v].len() > 0 && (ls[v][0] == p || ls[v].last() == p) {
                let v = choose|v: int| 0 <= v < ls.len() && #[trigger] ls[v].len() > 0 && (ls[v][0] == p || ls[v].last() == p);
                assert(0 <= v < w);
            }
        }
        p = p + 1;
    }
    r
}

/// The value that marks a node position that is not an intersection.
pub const NO_INDEX: u32 = 0xffff_ffff;

/// The dense numbering of the intersections, by increasing cell and then id.
struct DenseNodes {
    /// For each node position, its dense index, or `NO_INDEX`.
    index_of: Vec<u32>,
    /// For each dense index, the node position.
    pos: Vec<usize>,
    /// For each dense index, the cell of the node.
    cells: Vec<u64>,
}

/// Node position `p` comes before node position `q`, of cells `cp` and `cq`: by
/// cell, then by OSM id (as its 64-bit pattern), then by position.
pub open spec fn node_before(nodes: Seq<OsmNode>, cp: u64, p: usize, cq: u64, q: usize) -> bool {
    cp < cq || (cp == cq && ((nodes[p as int].id as u64) < (nodes[q as int].id as u64) || ((
    nodes[p as int].id as u64) == (nodes[q as int].id as u64) && p < q)))
}

/// The sort key of node position `p`: its cell, its id, the position.
spec fn crossing_key(nodes: Seq<OsmNode>, cells: Seq<u64>, p: int) -> (u64, u64, u64) {
    (cells[p], nodes[p].id as u64, p as u64)
}

/// Numbers the intersections by increasing cell, ties broken by OSM id: every
/// intersection gets exactly one index, and no other node gets one.
fn number_crossings(nodes: &Vec<OsmNode>, cells: &Vec<u64>, crossing: &Vec<bool>) -> (r: DenseNodes)
    requires
        cells@.len() == nodes@.len(),
        crossing@.len() == nodes@.len(),
        nodes@.len() < u32::MAX,
    ensures
        r.index_of@.len() == nodes@.len(),
        r.pos@.len() == r.cells@.len(),
        r.cells@.len() < u32::MAX,
        forall|i: int, j: int| 0 <= i < j < r.cells@.len() ==> #[trigger] r.cells@[i] <= #[trigger] r.cells@[j],
        forall|k: int| 0 <= k < r.pos@.len() ==> #[trigger] r.pos@[k] < nodes@.len() && r.cells@[k]
            == cells@[r.pos@[k] as int] && r.index_of@[r.pos@[k] as int] == k,
        forall|p: int|
            0 <= p < nodes@.len() && #[trigger] r.index_of@[p] != NO_INDEX ==> r.index_of@[p]
                < r.cells@.len() && r.cells@[r.index_of@[p] as int] == cells@[p] && r.pos@[r.index_of@[p] as int] == p,
        forall|p: int| 0 <= p < nodes@.len() ==> (#[trigger] r.index_of@[p] != NO_INDEX <==> crossing@[p]),
        forall|i: int, j: int|
            0 <= i < j < r.pos@.len() ==> #[trigger] node_before(nodes@, r.cells@[i], r.pos@[i], r.cells@[j], r.pos@[j]),
{
    let mut keys: Vec<(u64, u64, u64)> = Vec::new();
    let n = nodes.len();
    let mut p: usize = 0;
    while p < nodes.len()
        invariant
            n as int == nodes@.len(),
            p <= nodes@.len(),
            cells@.len() == nodes@.len(),
            crossing@.len() == nodes@.len(),
            keys@.len() <= p,
            forall|i: int| 0 <= i < keys@.len() ==> (#[trigger] keys@[i]).2 < p && keys@[i] == crossing_key(
                nodes@,
                cells@,
                keys@[i].2 as int,
            ) && crossing@[keys@[i].2 as int],
            forall|q: int| 0 <= q < p && crossing@[q] ==> keys@.contains(#[trigger] crossing_key(nodes@, cells@, q)),
            forall|i: int, j: int| 0 <= i < j < keys@.len() ==> (#[trigger] keys@[i]).2 < (#[trigger] keys@[j]).2,
        decreases nodes@.len() - p,
    {
        if crossing[p] {
            let ghost k0 = keys@;
            keys.push((cells[p], nodes[p].id as u64, p as u64));
            proof {
                assert(keys@[keys@.len() - 1] == crossing_key(nodes@, cells@, p as int));
                assert forall|q: int| 0 <= q < p + 1 && crossing@[q] implies keys@.contains(
                    #[trigger] crossing_key(nodes@, cells@, q),
                ) by {
                    if q < p {
                        let i = choose|i: int| 0 <= i < k0.len() && k0[i] == crossing_key(nodes@, cells@, q);
                        assert(keys@[i] == k0[i]);
                    }
                }
            }
        }
        p = p + 1;
    }
    let ghost keys0 = keys@;
    assert(keys0.no_duplicates()) by {
        assert forall|i: int, j: int| 0 <= i < keys0.len() && 0 <= j < keys0.len() && i != j implies keys0[i]
            != keys0[j] by {
            if i < j {
                assert(keys0[i].2 < keys0[j].2);
            } else {
                assert(keys0[j].2 < keys0[i].2);
            }
        }
    }
    sort_triples(&mut keys);
    proof {
        lemma_same_multiset(keys@, keys0);
    }
    assert(keys@.len() <= nodes@.len());
    let mut index_of: Vec<u32> = vec![NO_INDEX; nodes.len()];
    let mut pos: Vec<usize> = Vec::new();
    let mut out: Vec<u64> = Vec::new();
    let mut k: usize = 0;
    while k < keys.len()
        invariant
            n as int == nodes@.len(),
            k <= keys@.len(),
            keys@.len() <= nodes@.len(),
            nodes@.len() < u32::MAX,
            cells@.len() == nodes@.len(),
            crossing@.len() == nodes@.len(),
            triples_sorted(keys@),
            keys@.no_duplicates(),
            forall|x: (u64, u64, u64)| keys0.contains(x) <==> keys@.contains(x),
            forall|i: int| 0 <= i < keys0.len() ==> (#[trigger] keys0[i]).2 < nodes@.len() && keys0[i] == crossing_key(
                nodes@,
                cells@,
                keys0[i].2 as int,
            ) && crossing@[keys0[i].2 as int],
            index_of@.len() == nodes@.len(),
            pos@.len() == k,
            out@.len() == k,
            forall|i: int| 0 <= i < k ==> #[trigger] out@[i] == keys@[i].0,
            forall|i: int| 0 <= i < k ==> #[trigger] pos@[i] == keys@[i].2 && pos@[i] < nodes@.len() && out@[i]
                == cells@[pos@[i] as int] && index_of@[pos@[i] as int] == i,
            forall|q: int|
                0 <= q < nodes@.len() && #[trigger] index_of@[q] != NO_INDEX ==> index_of@[q] < k
                    && out@[index_of@[q] as int] == cells@[q] && pos@[index_of@[q] as int] == q,
        decreases keys@.len() - k,
    {
        let t = keys[k];
        proof {
            assert(keys@.contains(t)) by {
                assert(keys@[k as int] == t);
            }
            assert(keys0.contains(t));
            let i = choose|i: int| 0 <= i < keys0.len() && keys0[i] == t;
            assert(t.2 < nodes@.len() && t == crossing_key(nodes@, cells@, t.2 as int));
            assert forall|i2: int| 0 <= i2 < k implies keys@[i2].2 != t.2 by {
                let u = keys@[i2];
                assert(keys@.contains(u)) by {
                    assert(keys@[i2] == u);
                }
                assert(keys0.contains(u));
                let j = choose|j: int| 0 <= j < keys0.len() && keys0[j] == u;
                if u.2 == t.2 {
                    assert(u == t);
                    assert(keys@[i2] == keys@[k as int]);
                }
            }
        }
        let ghost pos0 = pos@;
        let ghost idx0 = index_of@;
        index_of[t.2 as usize] = k as u32;
        pos.push(t.2 as usize);
        out.push(t.0);
        proof {
            assert forall|i: int| 0 <= i < k + 1 implies #[trigger] pos@[i] == keys@[i].2 && pos@[i] < nodes@.len()
                && out@[i] == cells@[pos@[i] as int] && index_of@[pos@[i] as int] == i by {
                if i < k {
                    assert(pos@[i] == pos0[i]);
                    assert(pos0[i] != t.2 as usize);
                }
            }
        }
        k = k + 1;
    }
    proof {
        assert forall|q: int| 0 <= q < nodes@.len() implies (#[trigger] index_of@[q] != NO_INDEX <==> crossing@[q]) by {
            if index_of@[q] != NO_INDEX {
                let i = index_of@[q] as int;
                assert(pos@[i] == q);
                let u = keys@[i];
                assert(keys@.contains(u)) by {
                    assert(keys@[i] == u);
                }
                assert(keys0.contains(u));
                let j = choose|j: int| 0 <= j < keys0.len() && keys0[j] == u;
            }
            if crossing@[q] {
                let key = crossing_key(nodes@, cells@, q);
                assert(keys0.contains(key));
                assert(keys@.contains(key));
                let i = choose|i: int| 0 <= i < keys@.len() && keys@[i] == key;
                assert(pos@[i] == q);
            }
        }
    }
    assert forall|i: int, j: int| 0 <= i < j < out@.len() implies #[trigger] out@[i] <= #[trigger] out@[j] by {
        assert(triple_le(keys@[i], keys@[j]));
    }
    assert forall|i: int, j: int| 0 <= i < j < pos@.len() implies #[trigger] node_before(
        nodes@,
        out@[i],
        pos@[i],
        out@[j],
        pos@[j],
    ) by {
        let a = keys@[i];
        let b = keys@[j];
        assert(triple_le(a, b));
        assert(a != b);
        assert(keys@.contains(a)) by {
            assert(keys@[i] == a);
        }
        assert(keys@.contains(b)) by {
            assert(keys@[j] == b);
        }
        assert(keys0.contains(a));
        assert(keys0.contains(b));
        let qa = choose|q: int| 0 <= q < keys0.len() && keys0[q] == a;
        let qb = choose|q: int| 0 <= q < keys0.len() && keys0[q] == b;
        assert(a == crossing_key(nodes@, cells@, a.2 as int));
        assert(b == crossing_key(nodes@, cells@, b.2 as int));
    }
    DenseNodes { index_of, pos, cells: out }
}

/// A road segment between two intersections, with its polyline oriented from the
/// lower dense index to the higher.
struct Segment {
    lo: u32,
    hi: u32,
    /// The way ran from `lo` to `hi`.
    forward: bool,
    one_way: bool,
    seconds: u16,
    points: Vec<u64>,
}

/// The segment is a proper edge between intersections of `node_cells`.
spec fn segment_ok(s: Segment, node_cells: Seq<u64>) -> bool {
    &&& s.lo < s.hi < node_cells.len()
    &&& s.points@.len() >= 2
    &&& s.points@[0] == node_cells[s.lo as int]
    &&& s.points@.last() == node_cells[s.hi as int]
    &&& 1 <= s.seconds <= MAX_SECONDS
}

/// The cells of the positions `list[from..=to]`, in reverse order when `reverse`.
pub open spec fn way_cells(cells: Seq<u64>, list: Seq<usize>, from: int, to: int, reverse: bool) -> Seq<u64> {
    Seq::new(
        (to - from + 1) as nat,
        |t: int|
            if reverse {
                cells[list[to - t] as int]
            } else {
                cells[list[from + t] as int]
            },
    )
}

/// The cells of `list[from..=to]`, reversed when `reverse`.
fn polyline(cells: &Vec<u64>, list: &Vec<usize>, from: usize, to: usize, reverse: bool) -> (r: Vec<u64>)
    requires
        from < to < list@.len(),
        to < usize::MAX,
        forall|j: int| 0 <= j < list@.len() ==> #[trigger] list@[j] < cells@.len(),
    ensures
        r@.len() == to - from + 1,
        !reverse ==> r@[0] == cells@[list@[from as int] as int] && r@.last() == cells@[list@[to as int] as int],
        reverse ==> r@[0] == cells@[list@[to as int] as int] && r@.last() == cells@[list@[from as int] as int],
        r@ == way_cells(cells@, list@, from as int, to as int, reverse),
{
    let mut r: Vec<u64> = Vec::new();
    let mut k: usize = 0;
    while k <= to - from
        invariant
            from < to < list@.len(),
            to < usize::MAX,
            forall|j: int| 0 <= j < list@.len() ==> #[trigger] list@[j] < cells@.len(),
            k <= to - from + 1,
            r@.len() == k,
            forall|i: int| 0 <= i < k ==> #[trigger] r@[i] == if reverse {
                cells@[list@[to - i] as int]
            } else {
                cells@[list@[from + i] as int]
            },
        decreases to - from + 1 - k,
    {
        let j = if reverse {
            to - k
        } else {
            from + k
        };
        r.push(cells[list[j]]);
        k = k + 1;
    }
    r
}

/// Entries `i < j` of `list` are consecutive intersections: both have a dense
/// index and none between them has.
pub open spec fn next_crossing(idx: Seq<u32>, list: Seq<usize>, i: int, j: int) -> bool {
    &&& 0 <= i < j < list.len()
    &&& idx[list[i] as int] != NO_INDEX
    &&& idx[list[j] as int] != NO_INDEX
    &&& forall|t: int| i < t < j ==> idx[#[trigger] list[t] as int] == NO_INDEX
}

/// The pair `(lo, hi)` is the pair `{a, b}` in order.
pub open spec fn same_pair(lo: u32, hi: u32, a: u32, b: u32) -> bool {
    (lo == a && hi == b) || (lo == b && hi == a)
}

/// Some two consecutive intersections of `list` have dense indexes `{lo, hi}`.
pub open spec fn from_list(idx: Seq<u32>, list: Seq<usize>, lo: u32, hi: u32) -> bool {
    exists|i: int, j: int|
        #[trigger] next_crossing(idx, list, i, j) && same_pair(lo, hi, idx[list[i] as int], idx[list[j] as int])
}

/// The segment joins two consecutive intersections of `list`, runs as the way
/// does exactly when its lower index comes first there, and carries the way's
/// one-way flag.
spec fn seg_dir(idx: Seq<u32>, list: Seq<usize>, ow: bool, seg: Segment) -> bool {
    exists|i: int, j: int|
        #[trigger] next_crossing(idx, list, i, j) && same_pair(seg.lo, seg.hi, idx[list[i] as int], idx[list[j] as int])
            && seg.forward == (idx[list[i] as int] < idx[list[j] as int]) && seg.one_way == ow
}

/// The segment joins two consecutive intersections of `list` and takes the time
/// of the arc between them at `speed`.
spec fn seg_time(nodes: Seq<OsmNode>, idx: Seq<u32>, list: Seq<usize>, speed: u32, seg: Segment) -> bool {
    exists|i: int, j: int|
        #[trigger] next_crossing(idx, list, i, j) && same_pair(seg.lo, seg.hi, idx[list[i] as int], idx[list[j] as int])
            && seg.seconds == seconds_for(
            arc_e7(
                nodes[list[i] as int].lat_e7,
                nodes[list[i] as int].lng_e7,
                nodes[list[j] as int].lat_e7,
                nodes[list[j] as int].lng_e7,
            ) as int,
            speed as int,
        )
}

/// The segment joins two consecutive intersections of `list` and holds the cells
/// of the way between them, from its lower index to its higher.
spec fn seg_poly(cells: Seq<u64>, idx: Seq<u32>, list: Seq<usize>, seg: Segment) -> bool {
    exists|i: int, j: int|
        #[trigger] next_crossing(idx, list, i, j) && same_pair(seg.lo, seg.hi, idx[list[i] as int], idx[list[j] as int])
            && seg.points@ == way_cells(cells, list, i, j, !(idx[list[i] as int] < idx[list[j] as int]))
}

/// Some segment from position `start` on joins `{a, b}`, runs forward exactly
/// when `a < b`, and carries the one-way flag `ow`.
spec fn has_segment_dir(segs: Seq<Segment>, start: int, a: u32, b: u32, ow: bool) -> bool {
    exists|q: int|
        start <= q < segs.len() && same_pair((#[trigger] segs[q]).lo, segs[q].hi, a, b) && segs[q].forward == (a
            < b) && segs[q].one_way == ow
}

/// Some segment of `segs` from position `start` on joins `{a, b}`.
spec fn has_segment(segs: Seq<Segment>, start: int, a: u32, b: u32) -> bool {
    exists|q: int| start <= q < segs.len() && same_pair((#[trigger] segs[q]).lo, segs[q].hi, a, b)
}

/// The segments of one way: one between each two consecutive intersections on
/// its list of node positions that have different dense indexes.
fn way_segments(
    nodes: &Vec<OsmNode>,
    cells: &Vec<u64>,
    dense: &DenseNodes,
    list: &Vec<usize>,
    one_way: bool,
    speed: u32,
    out: &mut Vec<Segment>,
)
    requires
        cells@.len() == nodes@.len(),
        dense.index_of@.len() == nodes@.len(),
        forall|q: int|
            0 <= q < nodes@.len() && #[trigger] dense.index_of@[q] != NO_INDEX ==> dense.index_of@[q]
                < dense.cells@.len() && dense.cells@[dense.index_of@[q] as int] == cells@[q],
        forall|j: int| 0 <= j < list@.len() ==> #[trigger] list@[j] < nodes@.len(),
        forall|i: int| 0 <= i < old(out)@.len() ==> segment_ok(#[trigger] old(out)@[i], dense.cells@),
    ensures
        forall|i: int| 0 <= i < final(out)@.len() ==> segment_ok(#[trigger] final(out)@[i], dense.cells@),
        final(out)@.len() <= old(out)@.len() + list@.len(),
        final(out)@.len() >= old(out)@.len(),
        final(out)@.take(old(out)@.len() as int) == old(out)@,
        forall|q: int|
            old(out)@.len() <= q < final(out)@.len() ==> seg_dir(
                dense.index_of@,
                list@,
                one_way,
                #[trigger] final(out)@[q],
            ),
        forall|q: int|
            old(out)@.len() <= q < final(out)@.len() ==> seg_poly(
                cells@,
                dense.index_of@,
                list@,
                #[trigger] final(out)@[q],
            ),
        forall|q: int|
            old(out)@.len() <= q < final(out)@.len() ==> seg_time(
                nodes@,
                dense.index_of@,
                list@,
                speed,
                #[trigger] final(out)@[q],
            ),
        forall|i: int, j: int|
            #[trigger] next_crossing(dense.index_of@, list@, i, j) && dense.index_of@[list@[i] as int]
                != dense.index_of@[list@[j] as int] ==> has_segment_dir(
                final(out)@,
                old(out)@.len() as int,
                dense.index_of@[list@[i] as int],
                dense.index_of@[list@[j] as int],
                one_way,
            ),
{
    let ghost start = out@.len();
    let ghost out0 = out@;
    let ghost idx = dense.index_of@;
    let mut last: Option<(usize, u32)> = None;
    let mut k: usize = 0;
    while k < list.len()
        invariant
            k <= list@.len(),
            idx == dense.index_of@,
            cells@.len() == nodes@.len(),
            dense.index_of@.len() == nodes@.len(),
            forall|q: int|
                0 <= q < nodes@.len() && #[trigger] dense.index_of@[q] != NO_INDEX ==> dense.index_of@[q]
                    < dense.cells@.len() && dense.cells@[dense.index_of@[q] as int] == cells@[q],
            forall|j: int| 0 <= j < list@.len() ==> #[trigger] list@[j] < nodes@.len(),
            forall|i: int| 0 <= i < out@.len() ==> segment_ok(#[trigger] out@[i], dense.cells@),
            out@.len() <= start + k,
            out@.len() >= start,
            out@.take(start as int) == out0,
            start == out0.len(),
            last matches Some((lk, a)) ==> lk < k && a != NO_INDEX && a < dense.cells@.len()
                && dense.cells@[a as int] == cells@[list@[lk as int] as int] && idx[list@[lk as int] as int] == a
                && forall|t: int| lk < t < k ==> idx[#[trigger] list@[t] as int] == NO_INDEX,
            last is None ==> forall|t: int| 0 <= t < k ==> idx[#[trigger] list@[t] as int] == NO_INDEX,
            forall|q: int| start <= q < out@.len() ==> seg_dir(idx, list@, one_way, #[trigger] out@[q]),
            forall|q: int| start <= q < out@.len() ==> seg_time(nodes@, idx, list@, speed, #[trigger] out@[q]),
            forall|q: int| start <= q < out@.len() ==> seg_poly(cells@, idx, list@, #[trigger] out@[q]),
            forall|i: int, j: int|
                #[trigger] next_crossing(idx, list@, i, j) && j < k && idx[list@[i] as int] != idx[list@[j] as int]
                    ==> has_segment_dir(out@, start as int, idx[list@[i] as int], idx[list@[j] as int], one_way),
        decreases list@.len() - k,
    {
        let p = list[k];
        let b = dense.index_of[p];
        let ghost out1 = out@;
        if b != NO_INDEX {
            if let Some((lk, a)) = last {
                if a != b {
                    let lo = if a < b {
                        a
                    } else {
                        b
                    };
                    let hi = if a < b {
                        b
                    } else {
                        a
                    };
                    let points = polyline(cells, list, lk, k, a > b);
                    let s = &nodes[list[lk]];
                    let e = &nodes[p];
                    let arc = arc_between(s.lat_e7, s.lng_e7, e.lat_e7, e.lng_e7);
                    let seconds = travel_seconds(arc, speed);
                    let seg = Segment { lo, hi, forward: a < b, one_way, seconds, points };
                    assert(segment_ok(seg, dense.cells@));
                    out.push(seg);
                    proof {
                        assert(next_crossing(idx, list@, lk as int, k as int));
                        assert(out@[out@.len() - 1] == seg);
                    }
                }
            }
            proof {
                assert forall|q: int| start <= q < out@.len() implies seg_poly(
                    cells@,
                    idx,
                    list@,
                    #[trigger] out@[q],
                ) by {
                    if q < out1.len() {
                        assert(out@[q] == out1[q]);
                    } else {
                        let (lk, a) = last->Some_0;
                        assert(next_crossing(idx, list@, lk as int, k as int));
                        assert(same_pair(out@[q].lo, out@[q].hi, idx[list@[lk as int] as int], idx[list@[k as int] as int]));
                    }
                }
                assert forall|q: int| start <= q < out@.len() implies seg_time(
                    nodes@,
                    idx,
                    list@,
                    speed,
                    #[trigger] out@[q],
                ) by {
                    if q < out1.len() {
                        assert(out@[q] == out1[q]);
                    } else {
                        let (lk, a) = last->Some_0;
                        assert(next_crossing(idx, list@, lk as int, k as int));
                        assert(same_pair(out@[q].lo, out@[q].hi, idx[list@[lk as int] as int], idx[list@[k as int] as int]));
                    }
                }
                assert forall|q: int| start <= q < out@.len() implies seg_dir(
                    idx,
                    list@,
                    one_way,
                    #[trigger] out@[q],
                ) by {
                    if q < out1.len() {
                        assert(out@[q] == out1[q]);
                    } else {
                        let (lk, a) = last->Some_0;
                        assert(next_crossing(idx, list@, lk as int, k as int));
                        assert(same_pair(out@[q].lo, out@[q].hi, idx[list@[lk as int] as int], idx[list@[k as int] as int]));
                        assert(out@[q].forward == (idx[list@[lk as int] as int] < idx[list@[k as int] as int]));
                    }
                }
                assert forall|i: int, j: int|
                    #[trigger] next_crossing(idx, list@, i, j) && j < k + 1 && idx[list@[i] as int] != idx[list@[j] as int]
                        implies has_segment_dir(out@, start as int, idx[list@[i] as int], idx[list@[j] as int], one_way) by {
                    if j < k {
                        let q = choose|q: int|
                            start <= q < out1.len() && same_pair(
                                (#[trigger] out1[q]).lo,
                                out1[q].hi,
                                idx[list@[i] as int],
                                idx[list@[j] as int],
                            ) && out1[q].forward == (idx[list@[i] as int] < idx[list@[j] as int]) && out1[q].one_way
                                == one_way;
                        assert(out@[q] == out1[q]);
                    } else {
                        match last {
                            Some((lk, a)) => {
                                if i < lk {
                                    assert(idx[list@[lk as int] as int] == NO_INDEX);
                                } else if i > lk {
                                    assert(idx[list@[i] as int] == NO_INDEX);
                                }
                                let q = out@.len() - 1;
                                assert(same_pair(out@[q].lo, out@[q].hi, idx[list@[i] as int], idx[list@[j] as int]));
                                assert(out@[q].forward == (idx[list@[i] as int] < idx[list@[j] as int]));
                            },
                            None => {
                                assert(idx[list@[i] as int] == NO_INDEX);
                            },
                        }
                    }
                }
            }
            last = Some((k, b));
        } else {
            proof {
                assert forall|q: int| start <= q < out@.len() implies seg_time(
                    nodes@,
                    idx,
                    list@,
                    speed,
                    #[trigger] out@[q],
                ) by {
                    assert(out@[q] == out1[q]);
                }
                assert forall|q: int| start <= q < out@.len() implies seg_poly(
                    cells@,
                    idx,
                    list@,
                    #[trigger] out@[q],
                ) by {
                    assert(out@[q] == out1[q]);
                }
                assert forall|q: int| start <= q < out@.len() implies seg_dir(
                    idx,
                    list@,
                    one_way,
                    #[trigger] out@[q],
                ) by {
                    assert(out@[q] == out1[q]);
                }
                assert forall|i: int, j: int|
                    #[trigger] next_crossing(idx, list@, i, j) && j < k + 1 && idx[list@[i] as int] != idx[list@[j] as int]
                        implies has_segment_dir(out@, start as int, idx[list@[i] as int], idx[list@[j] as int], one_way) by {
                    if j == k {
                        assert(idx[list@[k as int] as int] == NO_INDEX);
                    }
                }
            }
        }
        assert(out@.take(start as int) == out0) by {
            assert(out@.take(start as int) == out1.take(start as int));
        }
        k = k + 1;
    }
}

/// A copy of a list of cells.
fn copy_cells(v: &Vec<u64>) -> (r: Vec<u64>)
    ensures
        r@ == v@,
{
    let mut r: Vec<u64> = Vec::new();
    let mut i: usize = 0;
    while i < v.len()
        invariant
            i <= v@.len(),
            r@ == v@.take(i as int),
        decreases v@.len() - i,
    {
        r.push(v[i]);
        i = i + 1;
    }
    assert(v@.take(i as int) == v@);
    r
}

/// An edge after deduplication: its endpoints, whether travel back is allowed,
/// its traversal time and its polyline.
struct Merged {
    lo: u32,
    hi: u32,
    back: bool,
    seconds: u16,
    points: Vec<u64>,
}

spec fn merged_ok(m: Merged, node_cells: Seq<u64>) -> bool {
    &&& m.lo < m.hi < node_cells.len()
    &&& m.points@.len() >= 2
    &&& m.points@[0] == node_cells[m.lo as int]
    &&& m.points@.last() == node_cells[m.hi as int]
    &&& 1 <= m.seconds <= MAX_SECONDS
}

/// Some two consecutive intersections of one of the first `n` lists have dense
/// indexes `{lo, hi}`.
pub open spec fn segs_from_lists(idx: Seq<u32>, lists: Seq<Vec<usize>>, n: int, lo: u32, hi: u32) -> bool {
    exists|w: int| 0 <= w < n && #[trigger] from_list(idx, lists[w]@, lo, hi)
}

/// The segment comes, with its direction and flag, from one of the first `n`
/// lists.
spec fn seg_from_lists(idx: Seq<u32>, lists: Seq<Vec<usize>>, ow: Seq<bool>, n: int, seg: Segment) -> bool {
    exists|w: int| 0 <= w < n && #[trigger] seg_dir(idx, lists[w]@, ow[w], seg)
}

/// The segment takes the time of its arc on one of the first `n` lists.
spec fn timed_from_lists(
    nodes: Seq<OsmNode>,
    idx: Seq<u32>,
    lists: Seq<Vec<usize>>,
    sp: Seq<u32>,
    n: int,
    seg: Segment,
) -> bool {
    exists|w: int| 0 <= w < n && #[trigger] seg_time(nodes, idx, lists[w]@, sp[w], seg)
}

/// The segment holds the cells of its stretch of one of the first `n` lists.
spec fn poly_from_lists(cells: Seq<u64>, idx: Seq<u32>, lists: Seq<Vec<usize>>, n: int, seg: Segment) -> bool {
    exists|w: int| 0 <= w < n && #[trigger] seg_poly(cells, idx, lists[w]@, seg)
}

/// Some segment joins `lo` and `hi` with polyline `pts`.
spec fn seg_has_points(segs: Seq<Segment>, lo: u32, hi: u32, pts: Seq<u64>) -> bool {
    exists|q: int| 0 <= q < segs.len() && (#[trigger] segs[q]).lo == lo && segs[q].hi == hi && segs[q].points@ == pts
}

/// Some merged edge joins `lo` and `hi` with polyline `pts`.
spec fn merged_has_points(ms: Seq<Merged>, lo: u32, hi: u32, pts: Seq<u64>) -> bool {
    exists|m: int| 0 <= m < ms.len() && (#[trigger] ms[m]).lo == lo && ms[m].hi == hi && ms[m].points@ == pts
}

/// Some segment joins `lo` and `hi`.
spec fn seg_has_pair(segs: Seq<Segment>, lo: u32, hi: u32) -> bool {
    exists|q: int| 0 <= q < segs.len() && (#[trigger] segs[q]).lo == lo && segs[q].hi == hi
}

/// Some segment joins `lo` and `hi` in `secs` seconds.
spec fn seg_has_time(segs: Seq<Segment>, lo: u32, hi: u32, secs: u16) -> bool {
    exists|q: int| 0 <= q < segs.len() && (#[trigger] segs[q]).lo == lo && segs[q].hi == hi && segs[q].seconds == secs
}

/// Some merged edge joins `lo` and `hi` in `secs` seconds.
spec fn merged_has_time(ms: Seq<Merged>, lo: u32, hi: u32, secs: u16) -> bool {
    exists|m: int| 0 <= m < ms.len() && (#[trigger] ms[m]).lo == lo && ms[m].hi == hi && ms[m].seconds == secs
}

/// Some merged edge joins `lo` and `hi`, with travel-back flag `back`.
spec fn merged_has_edge(ms: Seq<Merged>, lo: u32, hi: u32, back: bool) -> bool {
    exists|m: int| 0 <= m < ms.len() && (#[trigger] ms[m]).lo == lo && ms[m].hi == hi && ms[m].back == back
}

/// Some merged edge joins `lo` and `hi`.
spec fn merged_has_pair(ms: Seq<Merged>, lo: u32, hi: u32) -> bool {
    exists|m: int| 0 <= m < ms.len() && (#[trigger] ms[m]).lo == lo && ms[m].hi == hi
}

/// The segment allows travel from its higher index to its lower: it runs that
/// way, or is not one-way.
spec fn seg_back(seg: Segment) -> bool {
    !seg.forward || !seg.one_way
}

/// Some segment between `lo` and `hi` allows travel back.
spec fn back_of(segs: Seq<Segment>, lo: u32, hi: u32) -> bool {
    exists|q: int| 0 <= q < segs.len() && (#[trigger] segs[q]).lo == lo && segs[q].hi == hi && seg_back(segs[q])
}

/// Among the first `k` sorted keys, one of pair (`lo`, `hi`) names a segment
/// that allows travel back.
spec fn run_back(segs: Seq<Segment>, keys: Seq<(u64, u64, u64)>, k: int, lo: u32, hi: u32) -> bool {
    exists|i: int|
        0 <= i < k && (#[trigger] keys[i]).0 == lo as u64 && keys[i].1 == hi as u64 && keys[i].2 < segs.len()
            && seg_back(segs[keys[i].2 as int])
}

/// Once the sorted keys of pair (`lo`, `hi`) have all been taken, the run has
/// seen every segment of that pair.
proof fn lemma_run_closed(
    segs: Seq<Segment>,
    keys: Seq<(u64, u64, u64)>,
    keys0: Seq<(u64, u64, u64)>,
    k: int,
    lo: u32,
    hi: u32,
)
    requires
        triples_sorted(keys),
        forall|x: (u64, u64, u64)| keys0.contains(x) <==> keys.contains(x),
        forall|q: int| 0 <= q < keys0.len() ==> #[trigger] keys0[q] == ((segs[q].lo as u64), (segs[q].hi as u64), q as u64),
        keys0.len() == segs.len(),
        segs.len() < u32::MAX,
        0 < k <= keys.len(),
        keys[k - 1].0 == lo as u64 && keys[k - 1].1 == hi as u64,
        k < keys.len() ==> !(keys[k].0 == lo as u64 && keys[k].1 == hi as u64),
    ensures
        back_of(segs, lo, hi) == run_back(segs, keys, k, lo, hi),
{
    if back_of(segs, lo, hi) {
        let q = choose|q: int| 0 <= q < segs.len() && (#[trigger] segs[q]).lo == lo && segs[q].hi == hi && seg_back(segs[q]);
        let key = keys0[q];
        assert(keys0.contains(key));
        assert(keys.contains(key));
        let i = choose|i: int| 0 <= i < keys.len() && keys[i] == key;
        if i >= k {
            assert(triple_le(keys[k - 1], keys[k]));
            if i > k {
                assert(triple_le(keys[k], keys[i]));
            }
        }
        assert(i < k);
        assert(keys[i].2 == q as u64);
        assert(keys[i].2 as int == q);
        assert(keys[i].0 == lo as u64 && keys[i].1 == hi as u64 && keys[i].2 < segs.len() && seg_back(
            segs[keys[i].2 as int],
        ));
        assert(run_back(segs, keys, k, lo, hi));
    }
    if run_back(segs, keys, k, lo, hi) {
        let i = choose|i: int|
            0 <= i < k && (#[trigger] keys[i]).0 == lo as u64 && keys[i].1 == hi as u64 && keys[i].2 < segs.len()
                && seg_back(segs[keys[i].2 as int]);
        let u = keys[i];
        assert(keys.contains(u)) by {
            assert(keys[i] == u);
        }
        assert(keys0.contains(u));
        let q = choose|q: int| 0 <= q < keys0.len() && keys0[q] == u;
        assert(u.2 as int == q);
        assert(segs[q].lo == lo && segs[q].hi == hi && seg_back(segs[q]));
        assert(back_of(segs, lo, hi));
    }
}

/// Merges the segments that join the same two intersections: the first one seen
/// gives the polyline and the time; travel back is allowed when any of them runs
/// from the higher index to the lower, or is not one-way. The result is ordered
/// by (lower, higher) index, each pair once.
fn merge_segments(segs: &Vec<Segment>, Ghost(node_cells): Ghost<Seq<u64>>) -> (r: Vec<Merged>)
    requires
        segs@.len() < u32::MAX,
        forall|i: int| 0 <= i < segs@.len() ==> segment_ok(#[trigger] segs@[i], node_cells),
    ensures
        forall|i: int| 0 <= i < r@.len() ==> merged_ok(#[trigger] r@[i], node_cells),
        forall|i: int, j: int|
            0 <= i < j < r@.len() ==> (#[trigger] r@[i]).lo < (#[trigger] r@[j]).lo || (r@[i].lo
                == r@[j].lo && r@[i].hi < r@[j].hi),
        r@.len() <= segs@.len(),
        forall|m: int| 0 <= m < r@.len() ==> seg_has_pair(segs@, (#[trigger] r@[m]).lo, r@[m].hi),
        forall|q: int| 0 <= q < segs@.len() ==> merged_has_pair(r@, (#[trigger] segs@[q]).lo, segs@[q].hi),
        forall|m: int| 0 <= m < r@.len() ==> (#[trigger] r@[m]).back == back_of(segs@, r@[m].lo, r@[m].hi),
        forall|m: int| 0 <= m < r@.len() ==> seg_has_time(segs@, (#[trigger] r@[m]).lo, r@[m].hi, r@[m].seconds),
        forall|m: int| 0 <= m < r@.len() ==> seg_has_points(segs@, (#[trigger] r@[m]).lo, r@[m].hi, r@[m].points@),
{
    let mut keys: Vec<(u64, u64, u64)> = Vec::new();
    let mut i: usize = 0;
    while i < segs.len()
        invariant
            i <= segs@.len(),
            keys@.len() == i,
            forall|k: int| 0 <= k < i ==> #[trigger] keys@[k] == ((segs@[k].lo as u64), (segs@[k].hi as u64), k as u64),
        decreases segs@.len() - i,
    {
        keys.push((segs[i].lo as u64, segs[i].hi as u64, i as u64));
        i = i + 1;
    }
    let ghost keys0 = keys@;
    sort_triples(&mut keys);
    proof {
        lemma_same_multiset(keys@, keys0);
    }
    let mut r: Vec<Merged> = Vec::new();
    let ns = segs.len();
    let mut k: usize = 0;
    while k < keys.len()
        invariant
            ns as int == segs@.len(),
            segs@.len() < u32::MAX,
            k <= keys@.len(),
            triples_sorted(keys@),
            forall|x: (u64, u64, u64)| keys0.contains(x) <==> keys@.contains(x),
            forall|q: int| 0 <= q < keys0.len() ==> #[trigger] keys0[q] == ((segs@[q].lo as u64), (segs@[q].hi as u64), q as u64),
            keys0.len() == segs@.len(),
            forall|i: int| 0 <= i < segs@.len() ==> segment_ok(#[trigger] segs@[i], node_cells),
            forall|i: int| 0 <= i < r@.len() ==> merged_ok(#[trigger] r@[i], node_cells),
            forall|i: int, j: int|
                0 <= i < j < r@.len() ==> (#[trigger] r@[i]).lo < (#[trigger] r@[j]).lo || (r@[i].lo
                    == r@[j].lo && r@[i].hi < r@[j].hi),
            k == 0 <==> r@.len() == 0,
            r@.len() <= k,
            keys@.len() == segs@.len(),
            forall|m: int| 0 <= m < r@.len() ==> seg_has_pair(segs@, (#[trigger] r@[m]).lo, r@[m].hi),
            forall|i: int| 0 <= i < k ==> merged_has_pair(r@, (#[trigger] keys@[i]).0 as u32, keys@[i].1 as u32)
                && keys@[i].0 < u32::MAX + 1 && keys@[i].1 < u32::MAX + 1,
            forall|m: int| 0 <= m < r@.len() - 1 ==> (#[trigger] r@[m]).back == back_of(segs@, r@[m].lo, r@[m].hi),
            forall|m: int| 0 <= m < r@.len() ==> seg_has_time(segs@, (#[trigger] r@[m]).lo, r@[m].hi, r@[m].seconds),
            forall|m: int| 0 <= m < r@.len() ==> seg_has_points(segs@, (#[trigger] r@[m]).lo, r@[m].hi, r@[m].points@),
            k > 0 ==> r@.last().back == run_back(segs@, keys@, k as int, r@.last().lo, r@.last().hi),
            k > 0 ==> r@.last().lo as u64 == keys@[k - 1].0 && r@.last().hi as u64 == keys@[k - 1].1,
        decreases keys@.len() - k,
    {
        let t = keys[k];
        proof {
            assert(keys@.contains(t)) by {
                assert(keys@[k as int] == t);
            }
            assert(keys0.contains(t));
            let q = choose|q: int| 0 <= q < keys0.len() && keys0[q] == t;
            assert(t.2 < segs@.len());
            assert(t.2 as int == q);
            if k > 0 {
                assert(triple_le(keys@[k - 1], t));
            }
        }
        let s = &segs[t.2 as usize];
        assert(s.lo as u64 == t.0 && s.hi as u64 == t.1);
        let ghost r_start = r@;
        let back_here = !s.forward || !s.one_way;
        let n = r.len();
        if n > 0 && r[n - 1].lo as u64 == t.0 && r[n - 1].hi as u64 == t.1 {
            if back_here && !r[n - 1].back {
                let ghost r0 = r@;
                let mut last = r.pop().unwrap();
                last.back = true;
                r.push(last);
                assert forall|i: int, j: int|
                    0 <= i < j < r@.len() implies (#[trigger] r@[i]).lo < (#[trigger] r@[j]).lo || (
                    r@[i].lo == r@[j].lo && r@[i].hi < r@[j].hi) by {
                    assert(r0[i].lo == r@[i].lo && r0[i].hi == r@[i].hi);
                    assert(r0[j].lo == r@[j].lo && r0[j].hi == r@[j].hi);
                }
                assert forall|i: int| 0 <= i < r@.len() implies merged_ok(#[trigger] r@[i], node_cells) by {
                    if i < r@.len() - 1 {
                        assert(r@[i] == r0[i]);
                    } else {
                        assert(merged_ok(r0[i], node_cells));
                    }
                }
                assert forall|m2: int| 0 <= m2 < r@.len() implies seg_has_pair(segs@, (#[trigger] r@[m2]).lo, r@[m2].hi) by {
                    assert(r@[m2].lo == r0[m2].lo && r@[m2].hi == r0[m2].hi);
                    assert(seg_has_pair(segs@, r0[m2].lo, r0[m2].hi));
                }
                assert forall|m2: int| 0 <= m2 < r0.len() implies (#[trigger] r@[m2]).lo == r0[m2].lo && r@[m2].hi
                    == r0[m2].hi by {
                    if m2 < r0.len() - 1 {
                        assert(r@[m2] == r0[m2]);
                    }
                }
                assert forall|m2: int| 0 <= m2 < r@.len() - 1 implies (#[trigger] r@[m2]).back == back_of(
                    segs@,
                    r@[m2].lo,
                    r@[m2].hi,
                ) by {
                    assert(r@[m2] == r0[m2]);
                }
                assert(keys@[k as int] == t);
                assert(run_back(segs@, keys@, k + 1, r@.last().lo, r@.last().hi));
                assert forall|m2: int| 0 <= m2 < r@.len() implies seg_has_time(
                    segs@,
                    (#[trigger] r@[m2]).lo,
                    r@[m2].hi,
                    r@[m2].seconds,
                ) by {
                    assert(r@[m2].lo == r0[m2].lo && r@[m2].hi == r0[m2].hi && r@[m2].seconds == r0[m2].seconds);
                    assert(seg_has_time(segs@, r0[m2].lo, r0[m2].hi, r0[m2].seconds));
                }
                assert forall|m2: int| 0 <= m2 < r@.len() implies seg_has_points(
                    segs@,
                    (#[trigger] r@[m2]).lo,
                    r@[m2].hi,
                    r@[m2].points@,
                ) by {
                    if m2 < r0.len() - 1 {
                        assert(r@[m2] == r0[m2]);
                    }
                    assert(r@[m2].lo == r0[m2].lo && r@[m2].hi == r0[m2].hi && r@[m2].points@ == r0[m2].points@);
                    assert(seg_has_points(segs@, r0[m2].lo, r0[m2].hi, r0[m2].points@));
                }
            } else {
                proof {
                    assert(keys@[k as int] == t);
                    if r@.last().back {
                        let i = choose|i: int|
                            0 <= i < k && (#[trigger] keys@[i]).0 == r@.last().lo as u64 && keys@[i].1 == r@.last().hi as u64
                                && keys@[i].2 < segs@.len() && seg_back(segs@[keys@[i].2 as int]);
                        assert(run_back(segs@, keys@, k + 1, r@.last().lo, r@.last().hi));
                    } else {
                        assert(!run_back(segs@, keys@, k + 1, r@.last().lo, r@.last().hi));
                    }
                }
            }
        } else {
            let m = Merged {
                lo: s.lo,
                hi: s.hi,
                back: back_here,
                seconds: s.seconds,
                points: copy_cells(&s.points),
            };
            let ghost r0 = r@;
            proof {
                if n > 0 {
                    lemma_run_closed(segs@, keys@, keys0, k as int, r0.last().lo, r0.last().hi);
                }
            }
            r.push(m);
            proof {
                assert forall|m2: int| 0 <= m2 < r0.len() implies (#[trigger] r@[m2]).lo == r0[m2].lo && r@[m2].hi
                    == r0[m2].hi by {
                    assert(r@[m2] == r0[m2]);
                }
                assert forall|m2: int| 0 <= m2 < r@.len() - 1 implies (#[trigger] r@[m2]).back == back_of(
                    segs@,
                    r@[m2].lo,
                    r@[m2].hi,
                ) by {
                    assert(r@[m2] == r0[m2]);
                }
                assert(keys@[k as int] == t);
                assert forall|i: int| 0 <= i < k implies !((#[trigger] keys@[i]).0 == m.lo as u64 && keys@[i].1 == m.hi as u64) by {
                    if keys@[i].0 == m.lo as u64 && keys@[i].1 == m.hi as u64 {
                        assert(triple_le(keys@[i], keys@[k - 1]));
                        assert(triple_le(keys@[k - 1], keys@[k as int]));
                    }
                }
                assert(run_back(segs@, keys@, k + 1, m.lo, m.hi) == back_here);
                assert(seg_has_time(segs@, m.lo, m.hi, m.seconds)) by {
                    assert(segs@[t.2 as int].lo == m.lo && segs@[t.2 as int].seconds == m.seconds);
                }
                assert(seg_has_points(segs@, m.lo, m.hi, m.points@)) by {
                    assert(segs@[t.2 as int].lo == m.lo && segs@[t.2 as int].points@ == m.points@);
                }
                assert forall|m2: int| 0 <= m2 < r@.len() implies seg_has_points(
                    segs@,
                    (#[trigger] r@[m2]).lo,
                    r@[m2].hi,
                    r@[m2].points@,
                ) by {
                    if m2 < r0.len() {
                        assert(r@[m2] == r0[m2]);
                    }
                }
                assert forall|m2: int| 0 <= m2 < r@.len() implies seg_has_time(
                    segs@,
                    (#[trigger] r@[m2]).lo,
                    r@[m2].hi,
                    r@[m2].seconds,
                ) by {
                    if m2 < r0.len() {
                        assert(r@[m2] == r0[m2]);
                    }
                }
                assert(seg_has_pair(segs@, m.lo, m.hi)) by {
                    assert(segs@[t.2 as int].lo == m.lo);
                }
                assert forall|m2: int| 0 <= m2 < r@.len() implies seg_has_pair(segs@, (#[trigger] r@[m2]).lo, r@[m2].hi) by {
                    if m2 < r0.len() {
                        assert(r@[m2] == r0[m2]);
                    }
                }
                if n > 0 {
                    let l = r0.last();
                    assert(l.lo < m.lo || (l.lo == m.lo && l.hi < m.hi));
                    assert forall|i: int, j: int|
                        0 <= i < j < r@.len() implies (#[trigger] r@[i]).lo < (#[trigger] r@[j]).lo || (
                        r@[i].lo == r@[j].lo && r@[i].hi < r@[j].hi) by {
                        if j == r@.len() - 1 && i < j - 1 {
                            assert(r0[i].lo < r0[j - 1].lo || (r0[i].lo == r0[j - 1].lo && r0[i].hi
                                < r0[j - 1].hi));
                        }
                    }
                }
            }
        }
        proof {
            assert(r@.len() > 0 && r@.last().lo as u64 == t.0 && r@.last().hi as u64 == t.1);
            assert forall|i: int| 0 <= i < k + 1 implies merged_has_pair(r@, (#[trigger] keys@[i]).0 as u32, keys@[i].1 as u32)
                && keys@[i].0 < u32::MAX + 1 && keys@[i].1 < u32::MAX + 1 by {
                let u = keys@[i];
                assert(keys@.contains(u)) by {
                    assert(keys@[i] == u);
                }
                assert(keys0.contains(u));
                if i < k {
                    let m2 = choose|m2: int| 0 <= m2 < r_start.len() && (#[trigger] r_start[m2]).lo == u.0 as u32
                        && r_start[m2].hi == u.1 as u32;
                    assert(r@[m2].lo == r_start[m2].lo && r@[m2].hi == r_start[m2].hi);
                } else {
                    let m2 = r@.len() - 1;
                    assert(r@[m2].lo == u.0 as u32);
                }
            }
        }
        k = k + 1;
    }
    proof {
        if k > 0 {
            lemma_run_closed(segs@, keys@, keys0, k as int, r@.last().lo, r@.last().hi);
        }
        assert forall|m: int| 0 <= m < r@.len() implies (#[trigger] r@[m]).back == back_of(segs@, r@[m].lo, r@[m].hi) by {
            if m == r@.len() - 1 {
                assert(k > 0);
            }
        }
        assert forall|q: int| 0 <= q < segs@.len() implies merged_has_pair(r@, (#[trigger] segs@[q]).lo, segs@[q].hi) by {
            let key = keys0[q];
            assert(keys0.contains(key));
            assert(keys@.contains(key));
            let i = choose|i: int| 0 <= i < keys@.len() && keys@[i] == key;
            assert(merged_has_pair(r@, keys@[i].0 as u32, keys@[i].1 as u32));
        }
    }
    r
}

/// The edges in their final order, with their polylines and midpoint cells.
struct Ordered {
    edges: Vec<Edge>,
    points: Vec<Vec<u64>>,
    mids: Vec<u64>,
}

/// The edge of `g` joins two of `k` nodes in canonical order, with a time in
/// [1, MAX_SECONDS], and its polyline runs between the cells of its nodes.
spec fn placed_edge(e: Edge, points: Seq<u64>, node_cells: Seq<u64>) -> bool {
    &&& e.point_1_node_idx < e.point_2_node_idx < node_cells.len()
    &&& 1 <= seconds_of(e) <= MAX_SECONDS
    &&& points.len() >= 2
    &&& points[0] == node_cells[e.point_1_node_idx as int]
    &&& points.last() == node_cells[e.point_2_node_idx as int]
}

/// Some edge joins `p1` and `p2`.
pub open spec fn edge_has_pair(edges: Seq<Edge>, p1: u32, p2: u32) -> bool {
    exists|e: int| 0 <= e < edges.len() && (#[trigger] edges[e]).point_1_node_idx == p1 && edges[e].point_2_node_idx == p2
}

/// Some merged edge joins `lo` and `hi` and has midpoint cell `c` in `mids_of`.
spec fn merged_has_mid(ms: Seq<Merged>, mids_of: Seq<u64>, lo: u32, hi: u32, c: u64) -> bool {
    exists|m: int| 0 <= m < ms.len() && (#[trigger] ms[m]).lo == lo && ms[m].hi == hi && mids_of[m] == c
}

/// Edge `a` comes before edge `b`: by midpoint cell, then by endpoints.
pub open spec fn edge_before(ca: u64, a: Edge, cb: u64, b: Edge) -> bool {
    ca < cb || (ca == cb && (a.point_1_node_idx < b.point_1_node_idx || (a.point_1_node_idx
        == b.point_1_node_idx && a.point_2_node_idx < b.point_2_node_idx)))
}

proof fn lemma_pair_key(a: u32, b: u32, c: u32, d: u32)
    ensures
        ((a as u64) << 32u64) | (b as u64) < ((c as u64) << 32u64) | (d as u64) <==> (a < c || (a == c && b
            < d)),
        ((a as u64) << 32u64) | (b as u64) == ((c as u64) << 32u64) | (d as u64) <==> (a == c && b == d),
{
    let (x, y, z, w) = (a as u64, b as u64, c as u64, d as u64);
    assert(((x << 32u64) | y < (z << 32u64) | w <==> (x < z || (x == z && y < w))) && ((x << 32u64) | y
        == (z << 32u64) | w <==> (x == z && y == w))) by (bit_vector)
        requires
            x < 0x1_0000_0000u64,
            y < 0x1_0000_0000u64,
            z < 0x1_0000_0000u64,
            w < 0x1_0000_0000u64,
    ;
}

/// Orders the merged edges by the cell of their midpoint, ties broken by their
/// endpoints.
fn order_edges(merged: &Vec<Merged>, mids_of: &Vec<u64>, Ghost(node_cells): Ghost<Seq<u64>>) -> (r: Ordered)
    requires
        mids_of@.len() == merged@.len(),
        forall|i: int| 0 <= i < merged@.len() ==> merged_ok(#[trigger] merged@[i], node_cells),
        forall|i: int, j: int|
            0 <= i < j < merged@.len() ==> (#[trigger] merged@[i]).lo < (#[trigger] merged@[j]).lo || (merged@[i].lo
                == merged@[j].lo && merged@[i].hi < merged@[j].hi),
    ensures
        forall|i: int, j: int|
            0 <= i < j < r.edges@.len() ==> ((#[trigger] r.edges@[i]).point_1_node_idx, r.edges@[i].point_2_node_idx)
                != ((#[trigger] r.edges@[j]).point_1_node_idx, r.edges@[j].point_2_node_idx),
        r.edges@.len() == merged@.len(),
        forall|q: int| 0 <= q < r.edges@.len() ==> merged_has_mid(
            merged@,
            mids_of@,
            (#[trigger] r.edges@[q]).point_1_node_idx,
            r.edges@[q].point_2_node_idx,
            r.mids@[q],
        ),
        forall|q: int| 0 <= q < r.edges@.len() ==> merged_has_pair(
            merged@,
            (#[trigger] r.edges@[q]).point_1_node_idx,
            r.edges@[q].point_2_node_idx,
        ),
        forall|q: int| 0 <= q < r.edges@.len() ==> merged_has_points(
            merged@,
            (#[trigger] r.edges@[q]).point_1_node_idx,
            r.edges@[q].point_2_node_idx,
            r.points@[q]@,
        ),
        forall|q: int| 0 <= q < r.edges@.len() ==> merged_has_time(
            merged@,
            (#[trigger] r.edges@[q]).point_1_node_idx,
            r.edges@[q].point_2_node_idx,
            seconds_of(r.edges@[q]),
        ),
        forall|q: int| 0 <= q < r.edges@.len() ==> merged_has_edge(
            merged@,
            (#[trigger] r.edges@[q]).point_1_node_idx,
            r.edges@[q].point_2_node_idx,
            back_allowed(r.edges@[q]),
        ),
        forall|m: int| 0 <= m < merged@.len() ==> edge_has_pair(r.edges@, (#[trigger] merged@[m]).lo, merged@[m].hi),
        r.points@.len() == r.edges@.len(),
        r.mids@.len() == r.edges@.len(),
        forall|i: int| 0 <= i < r.edges@.len() ==> placed_edge(#[trigger] r.edges@[i], r.points@[i]@, node_cells),
        forall|i: int, j: int| 0 <= i < j < r.mids@.len() ==> #[trigger] r.mids@[i] <= #[trigger] r.mids@[j],
        forall|i: int, j: int|
            0 <= i < j < r.edges@.len() ==> #[trigger] edge_before(r.mids@[i], r.edges@[i], r.mids@[j], r.edges@[j]),
{
    let mut keys: Vec<(u64, u64, u64)> = Vec::new();
    let mut i: usize = 0;
    while i < merged.len()
        invariant
            i <= merged@.len(),
            mids_of@.len() == merged@.len(),
            keys@.len() == i,
            forall|k: int| 0 <= k < i ==> (#[trigger] keys@[k]).2 == k as u64,
            forall|k: int| 0 <= k < i ==> (#[trigger] keys@[k]).0 == mids_of@[k],
            forall|k: int| 0 <= k < i ==> (#[trigger] keys@[k]).1 == ((merged@[k].lo as u64) << 32u64) | (merged@[k].hi as u64),
        decreases merged@.len() - i,
    {
        let m = &merged[i];
        keys.push((mids_of[i], ((m.lo as u64) << 32u64) | (m.hi as u64), i as u64));
        i = i + 1;
    }
    let ghost keys0 = keys@;
    assert(keys0.no_duplicates()) by {
        assert forall|a: int, b: int| 0 <= a < keys0.len() && 0 <= b < keys0.len() && a != b implies keys0[a]
            != keys0[b] by {
            assert(keys0[a].2 == a as u64 && keys0[b].2 == b as u64);
        }
    }
    sort_triples(&mut keys);
    proof {
        lemma_same_multiset(keys@, keys0);
        assert forall|q: int| 0 <= q < keys@.len() implies (#[trigger] keys@[q]).2 < merged@.len()
            && keys@[q].0 == mids_of@[keys@[q].2 as int] && keys@[q].1 == ((merged@[keys@[q].2 as int].lo as u64)
            << 32u64) | (merged@[keys@[q].2 as int].hi as u64) by {
            assert(keys@.contains(keys@[q]));
            assert(keys0.contains(keys@[q]));
        }
    }
    let nm = merged.len();
    let mut edges: Vec<Edge> = Vec::new();
    let mut points: Vec<Vec<u64>> = Vec::new();
    let mut mids: Vec<u64> = Vec::new();
    let mut k: usize = 0;
    while k < keys.len()
        invariant
            nm as int == merged@.len(),
            k <= keys@.len(),
            keys@.len() == merged@.len(),
            triples_sorted(keys@),
            forall|x: (u64, u64, u64)| keys0.contains(x) <==> keys@.contains(x),
            forall|q: int| 0 <= q < keys0.len() ==> (#[trigger] keys0[q]).2 == q as u64,
            keys0.len() == merged@.len(),
            forall|q: int| 0 <= q < merged@.len() ==> merged_ok(#[trigger] merged@[q], node_cells),
            edges@.len() == k,
            points@.len() == k,
            mids@.len() == k,
            forall|q: int| 0 <= q < k ==> placed_edge(#[trigger] edges@[q], points@[q]@, node_cells),
            forall|q: int| 0 <= q < k ==> #[trigger] mids@[q] == keys@[q].0,
            keys@.no_duplicates(),
            forall|q: int| 0 <= q < keys@.len() ==> (#[trigger] keys@[q]).2 < merged@.len()
                && keys@[q].0 == mids_of@[keys@[q].2 as int] && keys@[q].1 == ((merged@[keys@[q].2 as int].lo
                as u64) << 32u64) | (merged@[keys@[q].2 as int].hi as u64),
            mids_of@.len() == merged@.len(),
            forall|q: int| 0 <= q < k ==> (#[trigger] edges@[q]).point_1_node_idx == merged@[keys@[q].2 as int].lo,
            forall|q: int| 0 <= q < k ==> (#[trigger] edges@[q]).point_2_node_idx == merged@[keys@[q].2 as int].hi,
            forall|q: int| 0 <= q < k ==> back_allowed(#[trigger] edges@[q]) == merged@[keys@[q].2 as int].back,
            forall|q: int| 0 <= q < k ==> seconds_of(#[trigger] edges@[q]) == merged@[keys@[q].2 as int].seconds,
            forall|q: int| 0 <= q < k ==> (#[trigger] points@[q])@ == merged@[keys@[q].2 as int].points@,
            forall|i: int, j: int|
                0 <= i < j < merged@.len() ==> (#[trigger] merged@[i]).lo < (#[trigger] merged@[j]).lo || (merged@[i].lo
                    == merged@[j].lo && merged@[i].hi < merged@[j].hi),
        decreases keys@.len() - k,
    {
        let t = keys[k];
        proof {
            assert(keys@.contains(t)) by {
                assert(keys@[k as int] == t);
            }
            assert(keys0.contains(t));
            let q = choose|q: int| 0 <= q < keys0.len() && keys0[q] == t;
            assert(t.2 as int == q);
        }
        let m = &merged[t.2 as usize];
        let e = Edge {
            point_1_node_idx: m.lo,
            point_2_node_idx: m.hi,
            costs_and_flags: pack_costs(m.seconds, m.back),
        };
        let pts = copy_cells(&m.points);
        assert(placed_edge(e, pts@, node_cells));
        let ghost edges0 = edges@;
        let ghost points0 = points@;
        edges.push(e);
        points.push(pts);
        mids.push(t.0);
        proof {
            assert(keys@[k as int] == t);
            assert(e.point_1_node_idx == merged@[t.2 as int].lo && e.point_2_node_idx == merged@[t.2 as int].hi);
        }
        assert forall|q: int| 0 <= q < k + 1 implies back_allowed(#[trigger] edges@[q]) == merged@[keys@[q].2 as int].back by {
            if q < k {
                assert(edges@[q] == edges0[q]);
            }
        }
        assert forall|q: int| 0 <= q < k + 1 implies seconds_of(#[trigger] edges@[q]) == merged@[keys@[q].2 as int].seconds by {
            if q < k {
                assert(edges@[q] == edges0[q]);
            }
        }
        assert forall|q: int| 0 <= q < k + 1 implies (#[trigger] points@[q])@ == merged@[keys@[q].2 as int].points@ by {
            if q < k {
                assert(points@[q] == points0[q]);
            }
        }
        assert forall|q: int| 0 <= q < k + 1 implies (#[trigger] edges@[q]).point_1_node_idx
            == merged@[keys@[q].2 as int].lo && edges@[q].point_2_node_idx == merged@[keys@[q].2 as int].hi by {
            if q < k {
                assert(edges@[q] == edges0[q]);
            }
        }
        k = k + 1;
    }
    assert forall|i: int, j: int| 0 <= i < j < mids@.len() implies #[trigger] mids@[i] <= #[trigger] mids@[j] by {
        assert(triple_le(keys@[i], keys@[j]));
    }
    assert forall|i: int, j: int|
        0 <= i < j < edges@.len() implies #[trigger] edge_before(mids@[i], edges@[i], mids@[j], edges@[j]) by {
        let a = keys@[i];
        let b = keys@[j];
        assert(triple_le(a, b));
        assert(a != b);
        let ma = a.2 as int;
        let mb = b.2 as int;
        assert(a.1 == ((merged@[ma].lo as u64) << 32u64) | (merged@[ma].hi as u64));
        assert(b.1 == ((merged@[mb].lo as u64) << 32u64) | (merged@[mb].hi as u64));
        lemma_pair_key(merged@[ma].lo, merged@[ma].hi, merged@[mb].lo, merged@[mb].hi);
        if a.0 == b.0 && a.1 == b.1 {
            assert(a.2 != b.2);
            if ma < mb {
                assert(merged@[ma].lo < merged@[mb].lo || (merged@[ma].lo == merged@[mb].lo && merged@[ma].hi
                    < merged@[mb].hi));
            } else {
                assert(merged@[mb].lo < merged@[ma].lo || (merged@[mb].lo == merged@[ma].lo && merged@[mb].hi
                    < merged@[ma].hi));
            }
        }
    }
    assert forall|q: int| 0 <= q < edges@.len() implies merged_has_pair(
        merged@,
        (#[trigger] edges@[q]).point_1_node_idx,
        edges@[q].point_2_node_idx,
    ) by {
        assert(keys@[q].2 < merged@.len());
        let m = keys@[q].2 as int;
        assert(merged@[m].lo == edges@[q].point_1_node_idx);
    }
    assert forall|q: int| 0 <= q < edges@.len() implies merged_has_mid(
        merged@,
        mids_of@,
        (#[trigger] edges@[q]).point_1_node_idx,
        edges@[q].point_2_node_idx,
        mids@[q],
    ) by {
        let m = keys@[q].2 as int;
        assert(merged@[m].lo == edges@[q].point_1_node_idx);
        assert(mids@[q] == keys@[q].0);
    }
    assert forall|q: int| 0 <= q < edges@.len() implies merged_has_points(
        merged@,
        (#[trigger] edges@[q]).point_1_node_idx,
        edges@[q].point_2_node_idx,
        points@[q]@,
    ) by {
        let m = keys@[q].2 as int;
        assert(merged@[m].lo == edges@[q].point_1_node_idx);
    }
    assert forall|q: int| 0 <= q < edges@.len() implies merged_has_time(
        merged@,
        (#[trigger] edges@[q]).point_1_node_idx,
        edges@[q].point_2_node_idx,
        seconds_of(edges@[q]),
    ) by {
        let m = keys@[q].2 as int;
        assert(merged@[m].lo == edges@[q].point_1_node_idx);
    }
    assert forall|q: int| 0 <= q < edges@.len() implies merged_has_edge(
        merged@,
        (#[trigger] edges@[q]).point_1_node_idx,
        edges@[q].point_2_node_idx,
        back_allowed(edges@[q]),
    ) by {
        let m = keys@[q].2 as int;
        assert(merged@[m].lo == edges@[q].point_1_node_idx);
    }
    assert forall|m: int| 0 <= m < merged@.len() implies edge_has_pair(edges@, (#[trigger] merged@[m]).lo, merged@[m].hi) by {
        let key = keys0[m];
        assert(keys0.contains(key));
        assert(keys@.contains(key));
        let q = choose|q: int| 0 <= q < keys@.len() && keys@[q] == key;
        assert(keys@[q].2 == m as u64);
        assert(edges@[q].point_1_node_idx == merged@[m].lo);
    }
    assert forall|i: int, j: int|
        0 <= i < j < edges@.len() implies ((#[trigger] edges@[i]).point_1_node_idx, edges@[i].point_2_node_idx)
            != ((#[trigger] edges@[j]).point_1_node_idx, edges@[j].point_2_node_idx) by {
        let a = keys@[i];
        let b = keys@[j];
        assert(a != b);
        assert(keys@.contains(a)) by {
            assert(keys@[i] == a);
        }
        assert(keys@.contains(b)) by {
            assert(keys@[j] == b);
        }
        assert(keys0.contains(a));
        assert(keys0.contains(b));
        let qa = choose|q: int| 0 <= q < keys0.len() && keys0[q] == a;
        let qb = choose|q: int| 0 <= q < keys0.len() && keys0[q] == b;
        assert(a.2 != b.2);
        let ia = a.2 as int;
        let ib = b.2 as int;
        if ia < ib {
            assert(merged@[ia].lo < merged@[ib].lo || (merged@[ia].lo == merged@[ib].lo && merged@[ia].hi < merged@[ib].hi));
        } else {
            assert(merged@[ib].lo < merged@[ia].lo || (merged@[ib].lo == merged@[ia].lo && merged@[ib].hi < merged@[ia].hi));
        }
    }
    Ordered { edges, points, mids }
}

/// Entry `t` is (node, edge, side) of an incidence of `edges`: side 0 at the
/// edge's first node, side 1 at its second node where travel back is allowed.
spec fn incidence(edges: Seq<Edge>, t: (u64, u64, u64)) -> bool {
    &&& t.1 < edges.len()
    &&& ((t.2 == 0 && t.0 == edges[t.1 as int].point_1_node_idx) || (t.2 == 1 && t.0
        == edges[t.1 as int].point_2_node_idx && back_allowed(edges[t.1 as int])))
}

/// The incidences of `edges`, one per edge at its first node and one at its
/// second node where travel back is allowed.
fn incidences(edges: &Vec<Edge>) -> (r: Vec<(u64, u64, u64)>)
    ensures
        forall|t: (u64, u64, u64)| r@.contains(t) <==> incidence(edges@, t),
        r@.no_duplicates(),
{
    let mut r: Vec<(u64, u64, u64)> = Vec::new();
    let mut e: usize = 0;
    while e < edges.len()
        invariant
            e <= edges@.len(),
            forall|t: (u64, u64, u64)| r@.contains(t) <==> (incidence(edges@, t) && t.1 < e),
            r@.no_duplicates(),
            forall|i: int| 0 <= i < r@.len() ==> (#[trigger] r@[i]).1 < e,
        decreases edges@.len() - e,
    {
        let ed = edges[e];
        let ghost r0 = r@;
        let a = (ed.point_1_node_idx as u64, e as u64, 0u64);
        r.push(a);
        let ghost r1 = r@;
        if ed.backwards_allowed() {
            let b = (ed.point_2_node_idx as u64, e as u64, 1u64);
            r.push(b);
        }
        proof {
            assert forall|i: int| 0 <= i < r@.len() implies (#[trigger] r@[i]).1 < e + 1 by {
                if i < r0.len() {
                    assert(r@[i] == r0[i]);
                }
            }
            assert forall|x: int, y: int| 0 <= x < r@.len() && 0 <= y < r@.len() && x != y implies r@[x] != r@[y] by {
                if x < r0.len() && y < r0.len() {
                    assert(r@[x] == r0[x] && r@[y] == r0[y]);
                } else if x < r0.len() {
                    assert(r@[x] == r0[x]);
                    assert(r0[x].1 < e);
                } else if y < r0.len() {
                    assert(r@[y] == r0[y]);
                    assert(r0[y].1 < e);
                }
            }
            assert forall|t: (u64, u64, u64)| r@.contains(t) <==> (incidence(edges@, t) && t.1 < e + 1) by {
                if r@.contains(t) {
                    let m = choose|m: int| 0 <= m < r@.len() && r@[m] == t;
                    if m < r0.len() {
                        assert(r0[m] == t);
                        assert(r0.contains(t));
                    }
                }
                if incidence(edges@, t) && t.1 < e + 1 {
                    if t.1 < e {
                        assert(r0.contains(t));
                        let m = choose|m: int| 0 <= m < r0.len() && r0[m] == t;
                        assert(r@[m] == t);
                    } else if t.2 == 0 {
                        assert(r@[r0.len() as int] == t);
                    } else {
                        assert(r@[r0.len() as int + 1] == t);
                    }
                }
            }
        }
        e = e + 1;
    }
    r
}

/// The nodes of the graph: at each of `k` nodes, the edges that can be entered
/// there, by increasing index, each with the node's regime on both sides.
fn attach_edges(edges: &Vec<Edge>, k: usize, signals: &Vec<u8>) -> (r: Vec<GraphNode>)
    requires
        signals@.len() == k,
        edges@.len() < u32::MAX,
        forall|e: int| 0 <= e < edges@.len() ==> (#[trigger] edges@[e]).point_1_node_idx
            < edges@[e].point_2_node_idx < k,
    ensures
        r@.len() == k,
        forall|n: int| 0 <= n < k ==> (#[trigger] r@[n]).edges@.len() == r@[n].interactions@.len(),
        forall|n: int, i: int|
            0 <= n < k && 0 <= i < r@[n].interactions@.len() ==> #[trigger] r@[n].interactions@[i] == (Interaction {
                incoming: signals@[n],
                outgoing: signals@[n],
            }),
        forall|n: int, x: u32|
            0 <= n < k ==> ((#[trigger] r@[n].edges@.contains(x)) <==> (incidence(edges@, (n as u64, x as u64, 0))
                || incidence(edges@, (n as u64, x as u64, 1)))),
        forall|n: int, a: int, b: int|
            0 <= n < k && 0 <= a < b < r@[n].edges@.len() ==> #[trigger] r@[n].edges@[a] < #[trigger] r@[n].edges@[b],
{
    let mut keys = incidences(edges);
    let ghost keys0 = keys@;
    sort_triples(&mut keys);
    proof {
        lemma_same_multiset(keys@, keys0);
    }
    assert(keys@.no_duplicates());
    let mut r: Vec<GraphNode> = Vec::new();
    let mut j: usize = 0;
    let mut n: usize = 0;
    while n < k
        invariant
            n <= k,
            signals@.len() == k,
            edges@.len() < u32::MAX,
            j <= keys@.len(),
            triples_sorted(keys@),
            keys@.no_duplicates(),
            forall|e: int| 0 <= e < edges@.len() ==> (#[trigger] edges@[e]).point_1_node_idx
                < edges@[e].point_2_node_idx,
            forall|t: (u64, u64, u64)| keys@.contains(t) <==> incidence(edges@, t),
            forall|m: int| 0 <= m < j ==> (#[trigger] keys@[m]).0 < n,
            j < keys@.len() ==> keys@[j as int].0 >= n,
            r@.len() == n,
            forall|q: int| 0 <= q < n ==> (#[trigger] r@[q]).edges@.len() == r@[q].interactions@.len(),
            forall|q: int, a: int, b: int|
                0 <= q < n && 0 <= a < b < r@[q].edges@.len() ==> #[trigger] r@[q].edges@[a] < #[trigger] r@[q].edges@[b],
            forall|q: int, i: int|
                0 <= q < n && 0 <= i < r@[q].interactions@.len() ==> #[trigger] r@[q].interactions@[i] == (Interaction {
                    incoming: signals@[q],
                    outgoing: signals@[q],
                }),
            forall|q: int, x: u32|
                0 <= q < n ==> ((#[trigger] r@[q].edges@.contains(x)) <==> (keys@.contains((q as u64, x as u64, 0))
                    || keys@.contains((q as u64, x as u64, 1)))),
        decreases k - n,
    {
        let j0 = j;
        let mut list: Vec<u32> = Vec::new();
        let mut slots: Vec<Interaction> = Vec::new();
        let sig = signals[n];
        while j < keys.len() && keys[j].0 == n as u64
            invariant
                j0 <= j <= keys@.len(),
                n < k,
                edges@.len() < u32::MAX,
                forall|t: (u64, u64, u64)| keys@.contains(t) <==> incidence(edges@, t),
                forall|m: int| j0 <= m < j ==> (#[trigger] keys@[m]).0 == n,
                list@.len() == j - j0,
                slots@.len() == list@.len(),
                sig == signals@[n as int],
                forall|i: int| 0 <= i < slots@.len() ==> #[trigger] slots@[i] == (Interaction { incoming: sig, outgoing: sig }),
                triples_sorted(keys@),
                keys@.no_duplicates(),
                forall|e: int| 0 <= e < edges@.len() ==> (#[trigger] edges@[e]).point_1_node_idx
                    < edges@[e].point_2_node_idx,
                forall|a: int, b: int| 0 <= a < b < list@.len() ==> #[trigger] list@[a] < #[trigger] list@[b],
                forall|i: int| 0 <= i < list@.len() ==> #[trigger] list@[i] as u64 == keys@[j0 + i].1,
            decreases keys@.len() - j,
        {
            let t = keys[j];
            proof {
                assert(keys@.contains(t)) by {
                    assert(keys@[j as int] == t);
                }
            }
            let ghost list0 = list@;
            list.push(t.1 as u32);
            slots.push(Interaction { incoming: sig, outgoing: sig });
            proof {
                if list0.len() > 0 {
                    let prev = keys@[j - 1];
                    assert(triple_le(prev, t));
                    assert(prev.0 == n && t.0 == n);
                    assert(keys@.contains(prev)) by {
                        assert(keys@[j - 1] == prev);
                    }
                    assert(incidence(edges@, prev));
                    assert(incidence(edges@, t));
                    assert(prev != t) by {
                        assert(keys@[j - 1] != keys@[j as int]);
                    }
                    if prev.1 == t.1 {
                        assert(prev.2 != t.2);
                        assert(edges@[t.1 as int].point_1_node_idx < edges@[t.1 as int].point_2_node_idx);
                    }
                    assert(prev.1 < t.1);
                    assert(list0[list0.len() - 1] as u64 == prev.1);
                }
                assert forall|a: int, b: int| 0 <= a < b < list@.len() implies #[trigger] list@[a] < #[trigger] list@[b] by {
                    if b < list0.len() {
                        assert(list@[a] == list0[a] && list@[b] == list0[b]);
                    } else if a < list0.len() - 1 {
                        assert(list0[a] < list0[list0.len() - 1]);
                    }
                }
            }
            j = j + 1;
        }
        proof {
            assert forall|x: u32| list@.contains(x) <==> (keys@.contains((n as u64, x as u64, 0))
                || keys@.contains((n as u64, x as u64, 1))) by {
                if list@.contains(x) {
                    let i = choose|i: int| 0 <= i < list@.len() && list@[i] == x;
                    let t = keys@[j0 + i];
                    assert(keys@.contains(t)) by {
                        assert(keys@[j0 + i] == t);
                    }
                    assert(t.0 == n && t.1 == x as u64);
                    assert(t.2 == 0 || t.2 == 1);
                }
                let c0 = keys@.contains((n as u64, x as u64, 0));
                let c1 = keys@.contains((n as u64, x as u64, 1));
                if c0 || c1 {
                    let side: u64 = if c0 {
                        0
                    } else {
                        1
                    };
                    let m = choose|m: int| 0 <= m < keys@.len() && keys@[m] == (n as u64, x as u64, side);
                    if m < j0 {
                        assert(keys@[m].0 < n);
                    } else if m >= j {
                        assert(j < keys@.len());
                        assert(keys@[j as int].0 != n);
                        assert(triple_le(keys@[j as int], keys@[m])) by {
                            if m > j {
                            }
                        }
                    } else {
                        assert(list@[m - j0] as u64 == x as u64);
                    }
                }
            }
        }
        let ghost r0 = r@;
        r.push(GraphNode { edges: list, interactions: slots });
        proof {
            assert forall|m: int| 0 <= m < j implies (#[trigger] keys@[m]).0 < n + 1 by {
                if m >= j0 {
                }
            }
            if j < keys@.len() {
                assert(keys@[j as int].0 >= n);
            }
            assert forall|q: int, x: u32| 0 <= q < n + 1 implies ((#[trigger] r@[q].edges@.contains(x))
                <==> (keys@.contains((q as u64, x as u64, 0)) || keys@.contains((q as u64, x as u64, 1)))) by {
                if q < n {
                    assert(r@[q] == r0[q]);
                }
            }
            assert forall|q: int| 0 <= q < n + 1 implies (#[trigger] r@[q]).edges@.len()
                == r@[q].interactions@.len() by {
                if q < n {
                    assert(r@[q] == r0[q]);
                }
            }
            assert forall|q: int, a: int, b: int|
                0 <= q < n + 1 && 0 <= a < b < r@[q].edges@.len() implies #[trigger] r@[q].edges@[a] < #[trigger] r@[q].edges@[b] by {
                if q < n {
                    assert(r@[q] == r0[q]);
                }
            }
            assert forall|q: int, i: int|
                0 <= q < n + 1 && 0 <= i < r@[q].interactions@.len() implies #[trigger] r@[q].interactions@[i]
                    == (Interaction { incoming: signals@[q], outgoing: signals@[q] }) by {
                if q < n {
                    assert(r@[q] == r0[q]);
                }
            }
        }
        n = n + 1;
    }
    r
}

/// The number of node references of the first `w` ways.
pub open spec fn refs_upto(ways: Seq<OsmWay>, w: int) -> int
    decreases w,
{
    if w <= 0 {
        0
    } else {
        refs_upto(ways, w - 1) + ways[w - 1].nodes@.len()
    }
}

proof fn lemma_refs_upto_mono(ways: Seq<OsmWay>, a: int, b: int)
    requires
        0 <= a <= b,
    ensures
        refs_upto(ways, a) <= refs_upto(ways, b),
    decreases b - a,
{
    if a < b {
        lemma_refs_upto_mono(ways, a, b - 1);
    }
}

/// The total length of the first `i` lists.
pub open spec fn lens_upto(lists: Seq<Vec<usize>>, i: int) -> int
    decreases i,
{
    if i <= 0 {
        0
    } else {
        lens_upto(lists, i - 1) + lists[i - 1]@.len()
    }
}

proof fn lemma_lens_mono(lists: Seq<Vec<usize>>, a: int, b: int)
    requires
        0 <= a <= b <= lists.len(),
    ensures
        lens_upto(lists, a) <= lens_upto(lists, b),
    decreases b - a,
{
    if a < b {
        lemma_lens_mono(lists, a, b - 1);
    }
}

proof fn lemma_lens_upto_push(lists: Seq<Vec<usize>>, l: Vec<usize>, i: int)
    requires
        0 <= i <= lists.len(),
    ensures
        lens_upto(lists.push(l), i) == lens_upto(lists, i),
    decreases i,
{
    if i > 0 {
        lemma_lens_upto_push(lists, l, i - 1);
    }
}

/// The node position lists of the first `w` ways that are highways with at
/// least two nodes that can be found.
pub open spec fn kept_ways(nodes: Seq<OsmNode>, ways: Seq<OsmWay>, w: int) -> Seq<Seq<usize>>
    decreases w,
{
    if w <= 0 {
        Seq::empty()
    } else {
        let prev = kept_ways(nodes, ways, w - 1);
        let l = way_pos(nodes, ways[w - 1].nodes@);
        if tag_of(ways[w - 1].tags@, "highway"@) is Some && l.len() >= 2 {
            prev.push(l)
        } else {
            prev
        }
    }
}

/// Whether each of the kept ways among the first `w` is one-way, in the order of
/// `kept_ways`.
pub open spec fn kept_one_way(nodes: Seq<OsmNode>, ways: Seq<OsmWay>, w: int) -> Seq<bool>
    decreases w,
{
    if w <= 0 {
        Seq::empty()
    } else {
        let prev = kept_one_way(nodes, ways, w - 1);
        let l = way_pos(nodes, ways[w - 1].nodes@);
        if tag_of(ways[w - 1].tags@, "highway"@) is Some && l.len() >= 2 {
            prev.push(way_one_way(ways[w - 1].tags@))
        } else {
            prev
        }
    }
}

/// The car speed of each of the kept ways among the first `w`, in the order of
/// `kept_ways`.
pub open spec fn kept_speed(nodes: Seq<OsmNode>, ways: Seq<OsmWay>, w: int) -> Seq<u32>
    decreases w,
{
    if w <= 0 {
        Seq::empty()
    } else {
        let prev = kept_speed(nodes, ways, w - 1);
        let l = way_pos(nodes, ways[w - 1].nodes@);
        if tag_of(ways[w - 1].tags@, "highway"@) is Some && l.len() >= 2 {
            prev.push(way_car_speed(ways[w - 1].tags@))
        } else {
            prev
        }
    }
}

/// Entries `i < j` of kept way `w` are intersections with none between them.
pub open spec fn crossing_pair(kept: Seq<Seq<usize>>, w: int, i: int, j: int) -> bool {
    &&& 0 <= w < kept.len()
    &&& 0 <= i < j < kept[w].len()
    &&& is_crossing(kept, kept[w][i])
    &&& is_crossing(kept, kept[w][j])
    &&& forall|t: int| i < t < j ==> !is_crossing(kept, #[trigger] kept[w][t])
}

/// `{x, y}` is `{a, b}`.
pub open spec fn same_nodes(x: usize, y: usize, a: usize, b: usize) -> bool {
    (x == a && y == b) || (x == b && y == a)
}

proof fn lemma_edges(
    kept: Seq<Seq<usize>>,
    ls: Seq<Vec<usize>>,
    idx: Seq<u32>,
    pos: Seq<usize>,
    n: int,
    segs: Seq<Segment>,
    merged: Seq<Merged>,
    es: Seq<Edge>,
)
    requires
        ls.len() == kept.len(),
        forall|w: int| 0 <= w < ls.len() ==> (#[trigger] ls[w])@ == kept[w],
        forall|w: int, t: int| 0 <= w < kept.len() && 0 <= t < kept[w].len() ==> #[trigger] kept[w][t] < n,
        idx.len() == n,
        forall|p: int| 0 <= p < n ==> (#[trigger] idx[p] != NO_INDEX <==> is_crossing(kept, p as usize)),
        forall|k: int| 0 <= k < pos.len() ==> #[trigger] pos[k] < n && idx[pos[k] as int] == k,
        forall|p: int|
            0 <= p < n && #[trigger] idx[p] != NO_INDEX ==> idx[p] < pos.len() && pos[idx[p] as int] == p,
        forall|q: int| 0 <= q < segs.len() ==> segs_from_lists(idx, ls, ls.len() as int, (#[trigger] segs[q]).lo, segs[q].hi),
        forall|w: int, a: int, b: int|
            0 <= w < ls.len() && #[trigger] next_crossing(idx, ls[w]@, a, b) && idx[ls[w]@[a] as int]
                != idx[ls[w]@[b] as int] ==> has_segment(segs, 0, idx[ls[w]@[a] as int], idx[ls[w]@[b] as int]),
        forall|m: int| 0 <= m < merged.len() ==> seg_has_pair(segs, (#[trigger] merged[m]).lo, merged[m].hi),
        forall|q: int| 0 <= q < segs.len() ==> merged_has_pair(merged, (#[trigger] segs[q]).lo, segs[q].hi),
        forall|q: int| 0 <= q < es.len() ==> merged_has_pair(
            merged,
            (#[trigger] es[q]).point_1_node_idx,
            es[q].point_2_node_idx,
        ),
        forall|m: int| 0 <= m < merged.len() ==> edge_has_pair(es, (#[trigger] merged[m]).lo, merged[m].hi),
    ensures
        edges_sound(kept, pos, es),
        edges_complete(kept, pos, es),
{
    assert forall|w: int, i: int, j: int|
        0 <= w < ls.len() && #[trigger] next_crossing(idx, ls[w]@, i, j) implies crossing_pair(kept, w, i, j) by {
        let l = ls[w]@;
        assert(l == kept[w]);
        assert forall|t: int| i < t < j implies !is_crossing(kept, #[trigger] kept[w][t]) by {
            assert(idx[l[t] as int] == NO_INDEX);
        }
    }
    assert forall|e: int| 0 <= e < es.len() implies edge_joins(kept, pos, #[trigger] es[e]) by {
        let p1 = es[e].point_1_node_idx;
        let p2 = es[e].point_2_node_idx;
        assert(merged_has_pair(merged, p1, p2));
        let m = choose|m: int| 0 <= m < merged.len() && (#[trigger] merged[m]).lo == p1 && merged[m].hi == p2;
        assert(seg_has_pair(segs, merged[m].lo, merged[m].hi));
        let q = choose|q: int| 0 <= q < segs.len() && (#[trigger] segs[q]).lo == p1 && segs[q].hi == p2;
        assert(segs_from_lists(idx, ls, ls.len() as int, segs[q].lo, segs[q].hi));
        let w = choose|w: int| 0 <= w < ls.len() && #[trigger] from_list(idx, ls[w]@, p1, p2);
        let (i, j) = choose|i: int, j: int|
            #[trigger] next_crossing(idx, ls[w]@, i, j) && same_pair(
                p1,
                p2,
                idx[ls[w]@[i] as int],
                idx[ls[w]@[j] as int],
            );
        assert(crossing_pair(kept, w, i, j));
        let l = ls[w]@;
        assert(pos[idx[l[i] as int] as int] == l[i]);
        assert(pos[idx[l[j] as int] as int] == l[j]);
        assert(same_nodes(pos[p1 as int], pos[p2 as int], kept[w][i], kept[w][j]));
    }
    assert forall|w: int, i: int, j: int|
        #[trigger] crossing_pair(kept, w, i, j) && kept[w][i] != kept[w][j] implies exists|e: int|
            0 <= e < es.len() && same_nodes(
                pos[(#[trigger] es[e]).point_1_node_idx as int],
                pos[es[e].point_2_node_idx as int],
                kept[w][i],
                kept[w][j],
            ) by {
        let l = ls[w]@;
        assert(l == kept[w]);
        assert(idx[l[i] as int] != NO_INDEX);
        assert(idx[l[j] as int] != NO_INDEX);
        assert forall|t: int| i < t < j implies idx[#[trigger] l[t] as int] == NO_INDEX by {
            assert(!is_crossing(kept, kept[w][t]));
        }
        assert(next_crossing(idx, l, i, j));
        let a = idx[l[i] as int];
        let b = idx[l[j] as int];
        assert(pos[a as int] == l[i]);
        assert(pos[b as int] == l[j]);
        assert(has_segment(segs, 0, a, b));
        let q = choose|q: int| 0 <= q < segs.len() && same_pair((#[trigger] segs[q]).lo, segs[q].hi, a, b);
        assert(merged_has_pair(merged, segs[q].lo, segs[q].hi));
        let m = choose|m: int| 0 <= m < merged.len() && (#[trigger] merged[m]).lo == segs[q].lo && merged[m].hi == segs[q].hi;
        assert(edge_has_pair(es, merged[m].lo, merged[m].hi));
        let e = choose|e: int| 0 <= e < es.len() && (#[trigger] es[e]).point_1_node_idx == merged[m].lo && es[e].point_2_node_idx == merged[m].hi;
        assert(same_nodes(pos[es[e].point_1_node_idx as int], pos[es[e].point_2_node_idx as int], kept[w][i], kept[w][j]));
    }
    assert(edges_sound(kept, pos, es));
    assert(edges_complete(kept, pos, es));
}

proof fn lemma_times(
    nodes: Seq<OsmNode>,
    kept: Seq<Seq<usize>>,
    sp: Seq<u32>,
    ls: Seq<Vec<usize>>,
    idx: Seq<u32>,
    pos: Seq<usize>,
    segs: Seq<Segment>,
    merged: Seq<Merged>,
    es: Seq<Edge>,
)
    requires
        ls.len() == kept.len(),
        sp.len() == kept.len(),
        forall|w: int| 0 <= w < ls.len() ==> (#[trigger] ls[w])@ == kept[w],
        forall|w: int, t: int| 0 <= w < kept.len() && 0 <= t < kept[w].len() ==> #[trigger] kept[w][t] < nodes.len(),
        idx.len() == nodes.len(),
        forall|p: int| 0 <= p < nodes.len() ==> (#[trigger] idx[p] != NO_INDEX <==> is_crossing(kept, p as usize)),
        forall|p: int|
            0 <= p < nodes.len() && #[trigger] idx[p] != NO_INDEX ==> idx[p] < pos.len() && pos[idx[p] as int] == p,
        forall|q: int| 0 <= q < segs.len() ==> timed_from_lists(nodes, idx, ls, sp, ls.len() as int, #[trigger] segs[q]),
        forall|m: int| 0 <= m < merged.len() ==> seg_has_time(segs, (#[trigger] merged[m]).lo, merged[m].hi, merged[m].seconds),
        forall|q: int| 0 <= q < es.len() ==> merged_has_time(
            merged,
            (#[trigger] es[q]).point_1_node_idx,
            es[q].point_2_node_idx,
            seconds_of(es[q]),
        ),
    ensures
        forall|e: int| 0 <= e < es.len() ==> time_by_ways(nodes, kept, sp, pos, #[trigger] es[e]),
{
    assert forall|e: int| 0 <= e < es.len() implies time_by_ways(nodes, kept, sp, pos, #[trigger] es[e]) by {
        let p1 = es[e].point_1_node_idx;
        let p2 = es[e].point_2_node_idx;
        let m = choose|m: int| 0 <= m < merged.len() && (#[trigger] merged[m]).lo == p1 && merged[m].hi == p2
            && merged[m].seconds == seconds_of(es[e]);
        let q = choose|q: int| 0 <= q < segs.len() && (#[trigger] segs[q]).lo == p1 && segs[q].hi == p2
            && segs[q].seconds == merged[m].seconds;
        assert(timed_from_lists(nodes, idx, ls, sp, ls.len() as int, segs[q]));
        let w = choose|w: int| 0 <= w < ls.len() && #[trigger] seg_time(nodes, idx, ls[w]@, sp[w], segs[q]);
        let l = ls[w]@;
        let (i, j) = choose|i: int, j: int|
            #[trigger] next_crossing(idx, l, i, j) && same_pair(segs[q].lo, segs[q].hi, idx[l[i] as int], idx[l[j] as int])
                && segs[q].seconds == seconds_for(
                arc_e7(nodes[l[i] as int].lat_e7, nodes[l[i] as int].lng_e7, nodes[l[j] as int].lat_e7, nodes[l[j] as int].lng_e7) as int,
                sp[w] as int,
            );
        assert(l == kept[w]);
        assert forall|t: int| i < t < j implies !is_crossing(kept, #[trigger] kept[w][t]) by {
            assert(idx[l[t] as int] == NO_INDEX);
        }
        assert(crossing_pair(kept, w, i, j));
        assert(pos[idx[l[i] as int] as int] == l[i]);
        assert(pos[idx[l[j] as int] as int] == l[j]);
    }
}

proof fn lemma_points(
    nodes: Seq<OsmNode>,
    cells: Seq<u64>,
    kept: Seq<Seq<usize>>,
    ls: Seq<Vec<usize>>,
    idx: Seq<u32>,
    pos: Seq<usize>,
    segs: Seq<Segment>,
    merged: Seq<Merged>,
    es: Seq<Edge>,
    pts: Seq<Vec<u64>>,
)
    requires
        ls.len() == kept.len(),
        forall|w: int| 0 <= w < ls.len() ==> (#[trigger] ls[w])@ == kept[w],
        forall|w: int, t: int| 0 <= w < kept.len() && 0 <= t < kept[w].len() ==> #[trigger] kept[w][t] < nodes.len(),
        cells.len() == nodes.len(),
        forall|p: int| 0 <= p < nodes.len() ==> #[trigger] cells[p] == leaf_at(nodes[p].lat_e7, nodes[p].lng_e7),
        idx.len() == nodes.len(),
        forall|p: int| 0 <= p < nodes.len() ==> (#[trigger] idx[p] != NO_INDEX <==> is_crossing(kept, p as usize)),
        forall|p: int|
            0 <= p < nodes.len() && #[trigger] idx[p] != NO_INDEX ==> idx[p] < pos.len() && pos[idx[p] as int] == p,
        forall|q: int| 0 <= q < segs.len() ==> poly_from_lists(cells, idx, ls, ls.len() as int, #[trigger] segs[q]),
        forall|q: int| 0 <= q < segs.len() ==> (#[trigger] segs[q]).lo < segs[q].hi,
        forall|m: int| 0 <= m < merged.len() ==> seg_has_points(segs, (#[trigger] merged[m]).lo, merged[m].hi, merged[m].points@),
        pts.len() == es.len(),
        forall|q: int| 0 <= q < es.len() ==> merged_has_points(
            merged,
            (#[trigger] es[q]).point_1_node_idx,
            es[q].point_2_node_idx,
            pts[q]@,
        ),
    ensures
        forall|e: int| 0 <= e < es.len() ==> poly_by_ways(nodes, kept, pos, #[trigger] es[e], pts[e]@),
{
    assert forall|e: int| 0 <= e < es.len() implies poly_by_ways(nodes, kept, pos, #[trigger] es[e], pts[e]@) by {
        let p1 = es[e].point_1_node_idx;
        let p2 = es[e].point_2_node_idx;
        let m = choose|m: int| 0 <= m < merged.len() && (#[trigger] merged[m]).lo == p1 && merged[m].hi == p2
            && merged[m].points@ == pts[e]@;
        let q = choose|q: int| 0 <= q < segs.len() && (#[trigger] segs[q]).lo == p1 && segs[q].hi == p2
            && segs[q].points@ == merged[m].points@;
        assert(poly_from_lists(cells, idx, ls, ls.len() as int, segs[q]));
        let w = choose|w: int| 0 <= w < ls.len() && #[trigger] seg_poly(cells, idx, ls[w]@, segs[q]);
        let l = ls[w]@;
        let (i, j) = choose|i: int, j: int|
            #[trigger] next_crossing(idx, l, i, j) && same_pair(segs[q].lo, segs[q].hi, idx[l[i] as int], idx[l[j] as int])
                && segs[q].points@ == way_cells(cells, l, i, j, !(idx[l[i] as int] < idx[l[j] as int]));
        assert(l == kept[w]);
        assert forall|t: int| i < t < j implies !is_crossing(kept, #[trigger] kept[w][t]) by {
            assert(idx[l[t] as int] == NO_INDEX);
        }
        assert(crossing_pair(kept, w, i, j));
        assert(pos[idx[l[i] as int] as int] == l[i]);
        assert(pos[idx[l[j] as int] as int] == l[j]);
        let rev = !(idx[l[i] as int] < idx[l[j] as int]);
        assert(rev == (kept[w][i] == pos[p2 as int]));
        assert(way_cells(cells, l, i, j, rev) =~= way_leafs(nodes, kept[w], i, j, rev));
    }
}

proof fn lemma_mids(
    nodes: Seq<OsmNode>,
    pos: Seq<usize>,
    merged: Seq<Merged>,
    mids_of: Seq<u64>,
    es: Seq<Edge>,
    cells: Seq<u64>,
)
    requires
        mids_of.len() == merged.len(),
        forall|q: int| 0 <= q < merged.len() ==> #[trigger] mids_of[q] == mid_leaf(
            nodes[pos[merged[q].lo as int] as int],
            nodes[pos[merged[q].hi as int] as int],
        ),
        cells.len() == es.len(),
        forall|q: int| 0 <= q < es.len() ==> merged_has_mid(
            merged,
            mids_of,
            (#[trigger] es[q]).point_1_node_idx,
            es[q].point_2_node_idx,
            cells[q],
        ),
    ensures
        forall|e: int|
            0 <= e < es.len() ==> cells[e] == mid_leaf(
                nodes[pos[(#[trigger] es[e]).point_1_node_idx as int] as int],
                nodes[pos[es[e].point_2_node_idx as int] as int],
            ),
{
    assert forall|e: int| 0 <= e < es.len() implies cells[e] == mid_leaf(
        nodes[pos[(#[trigger] es[e]).point_1_node_idx as int] as int],
        nodes[pos[es[e].point_2_node_idx as int] as int],
    ) by {
        let m = choose|m: int| 0 <= m < merged.len() && (#[trigger] merged[m]).lo == es[e].point_1_node_idx
            && merged[m].hi == es[e].point_2_node_idx && mids_of[m] == cells[e];
        assert(mids_of[m] == mid_leaf(nodes[pos[merged[m].lo as int] as int], nodes[pos[merged[m].hi as int] as int]));
    }
}

proof fn lemma_backs(
    kept: Seq<Seq<usize>>,
    ow: Seq<bool>,
    ls: Seq<Vec<usize>>,
    idx: Seq<u32>,
    pos: Seq<usize>,
    n: int,
    segs: Seq<Segment>,
    merged: Seq<Merged>,
    es: Seq<Edge>,
)
    requires
        ls.len() == kept.len(),
        ow.len() == kept.len(),
        forall|w: int| 0 <= w < ls.len() ==> (#[trigger] ls[w])@ == kept[w],
        forall|w: int, t: int| 0 <= w < kept.len() && 0 <= t < kept[w].len() ==> #[trigger] kept[w][t] < n,
        idx.len() == n,
        forall|p: int| 0 <= p < n ==> (#[trigger] idx[p] != NO_INDEX <==> is_crossing(kept, p as usize)),
        forall|k: int| 0 <= k < pos.len() ==> #[trigger] pos[k] < n && idx[pos[k] as int] == k,
        forall|p: int|
            0 <= p < n && #[trigger] idx[p] != NO_INDEX ==> idx[p] < pos.len() && pos[idx[p] as int] == p,
        forall|q: int| 0 <= q < segs.len() ==> seg_from_lists(idx, ls, ow, ls.len() as int, #[trigger] segs[q]),
        forall|q: int| 0 <= q < segs.len() ==> (#[trigger] segs[q]).lo < segs[q].hi,
        forall|w: int, a: int, b: int|
            0 <= w < ls.len() && #[trigger] next_crossing(idx, ls[w]@, a, b) && idx[ls[w]@[a] as int]
                != idx[ls[w]@[b] as int] ==> has_segment_dir(segs, 0, idx[ls[w]@[a] as int], idx[ls[w]@[b] as int], ow[w]),
        forall|m: int| 0 <= m < merged.len() ==> (#[trigger] merged[m]).back == back_of(segs, merged[m].lo, merged[m].hi),
        forall|q: int| 0 <= q < es.len() ==> merged_has_edge(
            merged,
            (#[trigger] es[q]).point_1_node_idx,
            es[q].point_2_node_idx,
            back_allowed(es[q]),
        ),
        forall|q: int| 0 <= q < es.len() ==> (#[trigger] es[q]).point_1_node_idx < es[q].point_2_node_idx < pos.len(),
    ensures
        forall|e: int| 0 <= e < es.len() ==> (back_allowed(#[trigger] es[e]) <==> back_by_ways(kept, ow, pos, es[e])),
{
    assert forall|e: int| 0 <= e < es.len() implies (back_allowed(#[trigger] es[e]) <==> back_by_ways(kept, ow, pos, es[e])) by {
        let p1 = es[e].point_1_node_idx;
        let p2 = es[e].point_2_node_idx;
        let m = choose|m: int| 0 <= m < merged.len() && (#[trigger] merged[m]).lo == p1 && merged[m].hi == p2
            && merged[m].back == back_allowed(es[e]);
        if back_allowed(es[e]) {
            assert(back_of(segs, p1, p2));
            let q = choose|q: int| 0 <= q < segs.len() && (#[trigger] segs[q]).lo == p1 && segs[q].hi == p2 && seg_back(segs[q]);
            assert(seg_from_lists(idx, ls, ow, ls.len() as int, segs[q]));
            let w = choose|w: int| 0 <= w < ls.len() && #[trigger] seg_dir(idx, ls[w]@, ow[w], segs[q]);
            let l = ls[w]@;
            let (i, j) = choose|i: int, j: int|
                #[trigger] next_crossing(idx, l, i, j) && same_pair(segs[q].lo, segs[q].hi, idx[l[i] as int], idx[l[j] as int])
                    && segs[q].forward == (idx[l[i] as int] < idx[l[j] as int]) && segs[q].one_way == ow[w];
            assert(l == kept[w]);
            assert forall|t: int| i < t < j implies !is_crossing(kept, #[trigger] kept[w][t]) by {
                assert(idx[l[t] as int] == NO_INDEX);
            }
            assert(crossing_pair(kept, w, i, j));
            assert(pos[idx[l[i] as int] as int] == l[i]);
            assert(pos[idx[l[j] as int] as int] == l[j]);
            assert(back_by_ways(kept, ow, pos, es[e]));
        }
        if back_by_ways(kept, ow, pos, es[e]) {
            let (w, i, j) = choose|w: int, i: int, j: int|
                #[trigger] crossing_pair(kept, w, i, j) && same_nodes(pos[p1 as int], pos[p2 as int], kept[w][i], kept[w][j])
                    && (!ow[w] || kept[w][i] == pos[p2 as int]);
            let l = ls[w]@;
            assert(l == kept[w]);
            assert forall|t: int| i < t < j implies idx[#[trigger] l[t] as int] == NO_INDEX by {
                assert(!is_crossing(kept, kept[w][t]));
            }
            assert(next_crossing(idx, l, i, j));
            let a = idx[l[i] as int];
            let b = idx[l[j] as int];
            assert(pos[a as int] == l[i]);
            assert(pos[b as int] == l[j]);
            assert(idx[pos[p1 as int] as int] == p1);
            assert(idx[pos[p2 as int] as int] == p2);
            assert(a != b);
            assert(has_segment_dir(segs, 0, a, b, ow[w]));
            let q = choose|q: int|
                0 <= q < segs.len() && same_pair((#[trigger] segs[q]).lo, segs[q].hi, a, b) && segs[q].forward == (a < b)
                    && segs[q].one_way == ow[w];
            assert(segs[q].lo == p1 && segs[q].hi == p2);
            assert(seg_back(segs[q]));
            assert(back_of(segs, p1, p2));
        }
    }
}

/// What a build gives: the graph, where it lies, the midpoint cell of each edge,
/// by which the edges are ordered, and the input position of each graph node.
#[derive(Clone, Debug)]
pub struct GraphBuild {
    pub graph: Graph,
    pub locations: Locations,
    pub edge_cells: Vec<u64>,
    pub node_positions: Vec<usize>,
}

/// The edge joins two intersections that follow each other on a kept way.
pub open spec fn edge_joins(kept: Seq<Seq<usize>>, pos: Seq<usize>, edge: Edge) -> bool {
    exists|w: int, i: int, j: int|
        #[trigger] crossing_pair(kept, w, i, j) && same_nodes(
            pos[edge.point_1_node_idx as int],
            pos[edge.point_2_node_idx as int],
            kept[w][i],
            kept[w][j],
        )
}

/// Every edge joins two intersections that follow each other on a kept way.
pub open spec fn edges_sound(kept: Seq<Seq<usize>>, pos: Seq<usize>, es: Seq<Edge>) -> bool {
    forall|e: int| 0 <= e < es.len() ==> edge_joins(kept, pos, #[trigger] es[e])
}

/// Every two distinct intersections that follow each other on a kept way are
/// joined by an edge.
pub open spec fn edges_complete(kept: Seq<Seq<usize>>, pos: Seq<usize>, es: Seq<Edge>) -> bool {
    forall|w: int, i: int, j: int|
        #[trigger] crossing_pair(kept, w, i, j) && kept[w][i] != kept[w][j] ==> exists|e: int|
            0 <= e < es.len() && same_nodes(
                pos[(#[trigger] es[e]).point_1_node_idx as int],
                pos[es[e].point_2_node_idx as int],
                kept[w][i],
                kept[w][j],
            )
}

/// The graph edges join exactly the intersections that follow each other on a
/// kept way: every edge joins such a pair, and every such pair of two distinct
/// nodes is joined by an edge.
pub open spec fn edges_exact(b: GraphBuild, nodes: Seq<OsmNode>, ways: Seq<OsmWay>) -> bool {
    let kept = kept_ways(nodes, ways, ways.len() as int);
    &&& edges_sound(kept, b.node_positions@, b.graph.edges@)
    &&& edges_complete(kept, b.node_positions@, b.graph.edges@)
}

/// Travel back along `edge` is allowed by some kept way that joins its two nodes
/// as consecutive intersections: the way is not one-way, or it meets the second
/// node first.
pub open spec fn back_by_ways(kept: Seq<Seq<usize>>, ow: Seq<bool>, pos: Seq<usize>, edge: Edge) -> bool {
    exists|w: int, i: int, j: int|
        #[trigger] crossing_pair(kept, w, i, j) && same_nodes(
            pos[edge.point_1_node_idx as int],
            pos[edge.point_2_node_idx as int],
            kept[w][i],
            kept[w][j],
        ) && (!ow[w] || kept[w][i] == pos[edge.point_2_node_idx as int])
}

/// Each edge allows travel back exactly when some kept way between its nodes
/// does.
pub open spec fn backs_exact(b: GraphBuild, nodes: Seq<OsmNode>, ways: Seq<OsmWay>) -> bool {
    let kept = kept_ways(nodes, ways, ways.len() as int);
    let ow = kept_one_way(nodes, ways, ways.len() as int);
    forall|e: int|
        0 <= e < b.graph.edges@.len() ==> (back_allowed(#[trigger] b.graph.edges@[e]) <==> back_by_ways(
            kept,
            ow,
            b.node_positions@,
            b.graph.edges@[e],
        ))
}

/// The time of `edge` is that of the arc between its two nodes, taken in the
/// order a kept way joining them as consecutive intersections meets them, at that
/// way's car speed.
pub open spec fn time_by_ways(
    nodes: Seq<OsmNode>,
    kept: Seq<Seq<usize>>,
    sp: Seq<u32>,
    pos: Seq<usize>,
    edge: Edge,
) -> bool {
    exists|w: int, i: int, j: int|
        #[trigger] crossing_pair(kept, w, i, j) && same_nodes(
            pos[edge.point_1_node_idx as int],
            pos[edge.point_2_node_idx as int],
            kept[w][i],
            kept[w][j],
        ) && seconds_of(edge) == seconds_for(
            arc_e7(
                nodes[kept[w][i] as int].lat_e7,
                nodes[kept[w][i] as int].lng_e7,
                nodes[kept[w][j] as int].lat_e7,
                nodes[kept[w][j] as int].lng_e7,
            ) as int,
            sp[w] as int,
        )
}

/// The leaf cells of the nodes at positions `list[from..=to]`, in reverse order
/// when `reverse`.
pub open spec fn way_leafs(nodes: Seq<OsmNode>, list: Seq<usize>, from: int, to: int, reverse: bool) -> Seq<u64> {
    Seq::new(
        (to - from + 1) as nat,
        |t: int|
            if reverse {
                leaf_at(nodes[list[to - t] as int].lat_e7, nodes[list[to - t] as int].lng_e7)
            } else {
                leaf_at(nodes[list[from + t] as int].lat_e7, nodes[list[from + t] as int].lng_e7)
            },
    )
}

/// The polyline `pts` of `edge` is the stretch of a kept way that joins its two
/// nodes as consecutive intersections, from the edge's first node to its second.
pub open spec fn poly_by_ways(nodes: Seq<OsmNode>, kept: Seq<Seq<usize>>, pos: Seq<usize>, edge: Edge, pts: Seq<u64>) -> bool {
    exists|w: int, i: int, j: int|
        #[trigger] crossing_pair(kept, w, i, j) && same_nodes(
            pos[edge.point_1_node_idx as int],
            pos[edge.point_2_node_idx as int],
            kept[w][i],
            kept[w][j],
        ) && pts == way_leafs(nodes, kept[w], i, j, kept[w][i] == pos[edge.point_2_node_idx as int])
}

/// Each edge's polyline is the stretch of some kept way between its nodes.
pub open spec fn points_exact(b: GraphBuild, nodes: Seq<OsmNode>, ways: Seq<OsmWay>) -> bool {
    let kept = kept_ways(nodes, ways, ways.len() as int);
    forall|e: int|
        0 <= e < b.graph.edges@.len() ==> poly_by_ways(
            nodes,
            kept,
            b.node_positions@,
            #[trigger] b.graph.edges@[e],
            b.locations.edge_points@[e]@,
        )
}

/// Each edge takes the time of some kept way between its nodes.
pub open spec fn times_exact(b: GraphBuild, nodes: Seq<OsmNode>, ways: Seq<OsmWay>) -> bool {
    let kept = kept_ways(nodes, ways, ways.len() as int);
    let sp = kept_speed(nodes, ways, ways.len() as int);
    forall|e: int|
        0 <= e < b.graph.edges@.len() ==> time_by_ways(nodes, kept, sp, b.node_positions@, #[trigger] b.graph.edges@[e])
}

/// Each edge's cell in `edge_cells` is the leaf cell at the mean position of its
/// two nodes.
pub open spec fn mids_exact(b: GraphBuild, nodes: Seq<OsmNode>) -> bool {
    let pos = b.node_positions@;
    forall|e: int|
        0 <= e < b.graph.edges@.len() ==> b.edge_cells@[e] == mid_leaf(
            nodes[pos[(#[trigger] b.graph.edges@[e]).point_1_node_idx as int] as int],
            nodes[pos[b.graph.edges@[e].point_2_node_idx as int] as int],
        )
}

/// The graph nodes are exactly the intersections of the kept ways, each once,
/// at the leaf cell of its position.
pub open spec fn nodes_exact(b: GraphBuild, nodes: Seq<OsmNode>, ways: Seq<OsmWay>) -> bool {
    let kept = kept_ways(nodes, ways, ways.len() as int);
    let pos = b.node_positions@;
    &&& pos.len() == b.graph.nodes@.len()
    &&& forall|k: int|
        0 <= k < pos.len() ==> #[trigger] pos[k] < nodes.len() && is_crossing(kept, pos[k])
            && b.locations.node_cells@[k] == leaf_at(nodes[pos[k] as int].lat_e7, nodes[pos[k] as int].lng_e7)
    &&& forall|p: int|
        0 <= p < nodes.len() && #[trigger] is_crossing(kept, p as usize) ==> exists|k: int|
            0 <= k < pos.len() && #[trigger] pos[k] == p
    &&& forall|i: int, j: int| 0 <= i < j < pos.len() ==> #[trigger] pos[i] != #[trigger] pos[j]
    &&& forall|i: int, j: int|
        0 <= i < j < pos.len() ==> #[trigger] node_before(
            nodes,
            b.locations.node_cells@[i],
            pos[i],
            b.locations.node_cells@[j],
            pos[j],
        )
    &&& forall|k: int, i: int|
        0 <= k < pos.len() && 0 <= i < b.graph.nodes@[k].interactions@.len() ==> #[trigger] b.graph.nodes@[k].interactions@[i]
            == (Interaction {
            incoming: node_signal(nodes[pos[k] as int].tags@),
            outgoing: node_signal(nodes[pos[k] as int].tags@),
        })
}

/// Why a build failed.
#[derive(Clone, Copy, Debug, PartialEq, Eq, Structural)]
pub enum BuildError {
    /// The nodes or the way node references do not fit in 32-bit indexes.
    TooLarge,
}

/// The build is sound: a well-formed graph whose edges have a time in
/// [1, MAX_SECONDS] and come by non-decreasing midpoint cell; nodes come by
/// non-decreasing leaf cell; each polyline runs between the cells of its nodes.
pub open spec fn build_ok(b: GraphBuild) -> bool {
    let g = b.graph;
    let loc = b.locations;
    &&& g.wf()
    &&& loc.node_cells@.len() == g.nodes@.len()
    &&& loc.edge_points@.len() == g.edges@.len()
    &&& b.edge_cells@.len() == g.edges@.len()
    &&& forall|e: int|
        0 <= e < g.edges@.len() ==> 1 <= seconds_of(#[trigger] g.edges@[e]) <= MAX_SECONDS
    &&& forall|e: int|
        0 <= e < g.edges@.len() ==> {
            let pts = (#[trigger] loc.edge_points@[e])@;
            &&& pts.len() >= 2
            &&& pts[0] == loc.node_cells@[g.edges@[e].point_1_node_idx as int]
            &&& pts.last() == loc.node_cells@[g.edges@[e].point_2_node_idx as int]
        }
    &&& forall|i: int, j: int|
        0 <= i < j < b.edge_cells@.len() ==> #[trigger] b.edge_cells@[i] <= #[trigger] b.edge_cells@[j]
    &&& forall|i: int, j: int|
        0 <= i < j < g.edges@.len() ==> #[trigger] edge_before(b.edge_cells@[i], g.edges@[i], b.edge_cells@[j], g.edges@[j])
    &&& forall|i: int, j: int|
        0 <= i < j < loc.node_cells@.len() ==> #[trigger] loc.node_cells@[i] <= #[trigger] loc.node_cells@[j]
    &&& forall|i: int| 0 <= i < loc.node_cells@.len() ==> is_leaf_cell(#[trigger] loc.node_cells@[i])
    &&& forall|i: int, j: int|
        0 <= i < j < g.edges@.len() ==> ((#[trigger] g.edges@[i]).point_1_node_idx, g.edges@[i].point_2_node_idx)
            != ((#[trigger] g.edges@[j]).point_1_node_idx, g.edges@[j].point_2_node_idx)
    &&& forall|n: int, a: int, b: int|
        0 <= n < g.nodes@.len() && 0 <= a < b < g.nodes@[n].edges@.len() ==> #[trigger] g.nodes@[n].edges@[a]
            < #[trigger] g.nodes@[n].edges@[b]
}

/// The midpoint cell of an edge between two nodes: the leaf cell at the mean of
/// their positions.
fn midpoint_cell(a: &OsmNode, b: &OsmNode) -> (r: u64)
    ensures
        is_leaf_cell(r),
        r == mid_leaf(*a, *b),
{
    let lat = mean_e7(a.lat_e7, b.lat_e7);
    let lng = mean_e7(a.lng_e7, b.lng_e7);
    leaf_cell(lat, lng)
}

/// The mean of two coordinates in 1e-7 degrees, rounded toward zero.
pub open spec fn mean_of(x: i32, y: i32) -> i32 {
    let s = x + y;
    if s >= 0 {
        (s / 2) as i32
    } else {
        (-((-s) / 2)) as i32
    }
}

/// The leaf cell at the mean position of two nodes.
pub open spec fn mid_leaf(a: OsmNode, b: OsmNode) -> u64 {
    leaf_at(mean_of(a.lat_e7, b.lat_e7), mean_of(a.lng_e7, b.lng_e7))
}

/// The mean of two coordinates, rounded toward zero.
fn mean_e7(x: i32, y: i32) -> (r: i32)
    ensures
        r == mean_of(x, y),
{
    let s: i64 = x as i64 + y as i64;
    if s >= 0 {
        (s / 2) as i32
    } else {
        (-((-s) / 2)) as i32
    }
}

/// Builds the routing graph of the highway ways among `ways`: their
/// intersections become nodes, numbered by cell; each stretch of a way between
/// two consecutive intersections becomes an edge, stretches between the same two
/// nodes merged into one; edges are ordered by midpoint cell.
#[verifier::rlimit(100)]
pub fn build_graph(nodes: &Vec<OsmNode>, ways: &Vec<OsmWay>) -> (r: Result<GraphBuild, BuildError>)
    ensures
        r matches Ok(b) ==> build_ok(b) && nodes_exact(b, nodes@, ways@) && edges_exact(b, nodes@, ways@)
            && backs_exact(b, nodes@, ways@) && times_exact(b, nodes@, ways@) && points_exact(b, nodes@, ways@),
        (nodes@.len() < u32::MAX && refs_upto(ways@, ways@.len() as int) < u32::MAX) <==> r is Ok,
{
    if nodes.len() >= 0xffff_ffffusize {
        return Err(BuildError::TooLarge);
    }
    let lookup = node_lookup(nodes);
    let mut cells: Vec<u64> = Vec::new();
    let mut p: usize = 0;
    while p < nodes.len()
        invariant
            p <= nodes@.len(),
            cells@.len() == p,
            forall|q: int| 0 <= q < p ==> is_leaf_cell(#[trigger] cells@[q]) && cells@[q] == leaf_at(
                nodes@[q].lat_e7,
                nodes@[q].lng_e7,
            ),
        decreases nodes@.len() - p,
    {
        cells.push(leaf_cell(nodes[p].lat_e7, nodes[p].lng_e7));
        p = p + 1;
    }
    let mut lists: Vec<Vec<usize>> = Vec::new();
    let mut owners: Vec<usize> = Vec::new();
    let mut total: u64 = 0;
    let mut w: usize = 0;
    while w < ways.len()
        invariant
            w <= ways@.len(),
            triples_sorted(lookup@),
            forall|x: (u64, u64, u64)|
                lookup@.contains(x) <==> (x.1 < nodes@.len() && x.0 == nodes@[x.1 as int].id as u64
                    && x.2 == 0),
            lists@.len() == owners@.len(),
            lists@.len() <= w,
            forall|i: int| 0 <= i < owners@.len() ==> #[trigger] owners@[i] < ways@.len(),
            forall|i: int, k: int|
                0 <= i < lists@.len() && 0 <= k < lists@[i]@.len() ==> #[trigger] lists@[i]@[k] < nodes@.len(),
            total == refs_upto(ways@, w as int),
            total < u32::MAX,
            lens_upto(lists@, lists@.len() as int) <= total,
            lists@.len() <= total,
            lists@.map_values(|l: Vec<usize>| l@) == kept_ways(nodes@, ways@, w as int),
            owners@.map_values(|o: usize| way_one_way(ways@[o as int].tags@)) == kept_one_way(nodes@, ways@, w as int),
            owners@.map_values(|o: usize| way_car_speed(ways@[o as int].tags@)) == kept_speed(nodes@, ways@, w as int),
        decreases ways@.len() - w,
    {
        let way = &ways[w];
        if way.nodes.len() as u64 >= 0xffff_ffffu64 - total {
            proof {
                lemma_refs_upto_mono(ways@, w + 1, ways@.len() as int);
            }
            return Err(BuildError::TooLarge);
        }
        total = total + way.nodes.len() as u64;
        let ghost lists_before = lists@;
        if is_highway(&way.tags) {
            let l = way_positions(&lookup, nodes, way);
            if l.len() >= 2 {
                let ghost lists0 = lists@;
                let ghost owners0 = owners@;
                let ghost l0 = l;
                lists.push(l);
                owners.push(w);
                proof {
                    lemma_lens_upto_push(lists0, l0, lists0.len() as int);
                    assert(lists@ == lists0.push(l0));
                    assert(owners@.map_values(|o: usize| way_one_way(ways@[o as int].tags@)) =~= owners0.map_values(
                        |o: usize| way_one_way(ways@[o as int].tags@),
                    ).push(way_one_way(ways@[w as int].tags@)));
                    assert(owners@.map_values(|o: usize| way_car_speed(ways@[o as int].tags@)) =~= owners0.map_values(
                        |o: usize| way_car_speed(ways@[o as int].tags@),
                    ).push(way_car_speed(ways@[w as int].tags@)));
                    assert(lists@.map_values(|l: Vec<usize>| l@) =~= lists0.map_values(|l: Vec<usize>| l@).push(
                        l0@,
                    ));
                }
            }
        }
        assert(lists@.map_values(|l: Vec<usize>| l@) =~= kept_ways(nodes@, ways@, w + 1));
        assert(owners@.map_values(|o: usize| way_one_way(ways@[o as int].tags@)) =~= kept_one_way(nodes@, ways@, w + 1));
        assert(owners@.map_values(|o: usize| way_car_speed(ways@[o as int].tags@)) =~= kept_speed(nodes@, ways@, w + 1));
        w = w + 1;
    }
    assert(total == refs_upto(ways@, ways@.len() as int));
    let crossing = find_crossings(nodes.len(), &lists);
    let dense = number_crossings(nodes, &cells, &crossing);
    let ghost node_cells = dense.cells@;
    let mut segs: Vec<Segment> = Vec::new();
    let ghost ow_seq = owners@.map_values(|o: usize| way_one_way(ways@[o as int].tags@));
    let ghost sp_seq = owners@.map_values(|o: usize| way_car_speed(ways@[o as int].tags@));
    let mut i: usize = 0;
    while i < lists.len()
        invariant
            i <= lists@.len(),
            lists@.len() == owners@.len(),
            forall|q: int| 0 <= q < owners@.len() ==> #[trigger] owners@[q] < ways@.len(),
            forall|q: int, k: int|
                0 <= q < lists@.len() && 0 <= k < lists@[q]@.len() ==> #[trigger] lists@[q]@[k] < nodes@.len(),
            cells@.len() == nodes@.len(),
            dense.index_of@.len() == nodes@.len(),
            node_cells == dense.cells@,
            forall|q: int|
                0 <= q < nodes@.len() && #[trigger] dense.index_of@[q] != NO_INDEX ==> dense.index_of@[q]
                    < dense.cells@.len() && dense.cells@[dense.index_of@[q] as int] == cells@[q],
            forall|q: int| 0 <= q < segs@.len() ==> segment_ok(#[trigger] segs@[q], node_cells),
            segs@.len() <= lens_upto(lists@, i as int),
            lens_upto(lists@, lists@.len() as int) <= total,
            total < u32::MAX,
            total == refs_upto(ways@, ways@.len() as int),
            forall|q: int| 0 <= q < segs@.len() ==> segs_from_lists(
                dense.index_of@,
                lists@,
                i as int,
                (#[trigger] segs@[q]).lo,
                segs@[q].hi,
            ),
            forall|w: int, a: int, b: int|
                0 <= w < i && #[trigger] next_crossing(dense.index_of@, lists@[w]@, a, b)
                    && dense.index_of@[lists@[w]@[a] as int] != dense.index_of@[lists@[w]@[b] as int]
                    ==> has_segment(
                    segs@,
                    0,
                    dense.index_of@[lists@[w]@[a] as int],
                    dense.index_of@[lists@[w]@[b] as int],
                ),
            ow_seq == owners@.map_values(|o: usize| way_one_way(ways@[o as int].tags@)),
            sp_seq == owners@.map_values(|o: usize| way_car_speed(ways@[o as int].tags@)),
            forall|q: int| 0 <= q < segs@.len() ==> poly_from_lists(
                cells@,
                dense.index_of@,
                lists@,
                i as int,
                #[trigger] segs@[q],
            ),
            forall|q: int| 0 <= q < segs@.len() ==> timed_from_lists(
                nodes@,
                dense.index_of@,
                lists@,
                sp_seq,
                i as int,
                #[trigger] segs@[q],
            ),
            forall|q: int| 0 <= q < segs@.len() ==> seg_from_lists(
                dense.index_of@,
                lists@,
                ow_seq,
                i as int,
                #[trigger] segs@[q],
            ),
            forall|w: int, a: int, b: int|
                0 <= w < i && #[trigger] next_crossing(dense.index_of@, lists@[w]@, a, b)
                    && dense.index_of@[lists@[w]@[a] as int] != dense.index_of@[lists@[w]@[b] as int]
                    ==> has_segment_dir(
                    segs@,
                    0,
                    dense.index_of@[lists@[w]@[a] as int],
                    dense.index_of@[lists@[w]@[b] as int],
                    ow_seq[w],
                ),
        decreases lists@.len() - i,
    {
        let way = &ways[owners[i]];
        let list = &lists[i];
        assert(forall|k: int| 0 <= k < list@.len() ==> #[trigger] list@[k] < nodes@.len());
        let ghost segs0 = segs@;
        let one_way = is_one_way(&way.tags);
        assert(one_way == ow_seq[i as int]);
        let speed = car_speed(&way.tags);
        assert(speed == sp_seq[i as int]);
        way_segments(nodes, &cells, &dense, list, one_way, speed, &mut segs);
        proof {
            assert forall|q: int| 0 <= q < segs@.len() implies poly_from_lists(
                cells@,
                dense.index_of@,
                lists@,
                i + 1,
                #[trigger] segs@[q],
            ) by {
                if q < segs0.len() {
                    assert(segs@[q] == segs@.take(segs0.len() as int)[q]);
                    assert(poly_from_lists(cells@, dense.index_of@, lists@, i as int, segs0[q]));
                    let w = choose|w: int| 0 <= w < i && #[trigger] seg_poly(cells@, dense.index_of@, lists@[w]@, segs0[q]);
                } else {
                    assert(seg_poly(cells@, dense.index_of@, list@, segs@[q]));
                }
            }
            assert forall|q: int| 0 <= q < segs@.len() implies timed_from_lists(
                nodes@,
                dense.index_of@,
                lists@,
                sp_seq,
                i + 1,
                #[trigger] segs@[q],
            ) by {
                if q < segs0.len() {
                    assert(segs@[q] == segs@.take(segs0.len() as int)[q]);
                    assert(timed_from_lists(nodes@, dense.index_of@, lists@, sp_seq, i as int, segs0[q]));
                    let w = choose|w: int| 0 <= w < i && #[trigger] seg_time(nodes@, dense.index_of@, lists@[w]@, sp_seq[w], segs0[q]);
                } else {
                    assert(seg_time(nodes@, dense.index_of@, list@, speed, segs@[q]));
                }
            }
            assert forall|q: int| 0 <= q < segs@.len() implies seg_from_lists(
                dense.index_of@,
                lists@,
                ow_seq,
                i + 1,
                #[trigger] segs@[q],
            ) by {
                if q < segs0.len() {
                    assert(segs@[q] == segs@.take(segs0.len() as int)[q]);
                    assert(seg_from_lists(dense.index_of@, lists@, ow_seq, i as int, segs0[q]));
                    let w = choose|w: int| 0 <= w < i && #[trigger] seg_dir(dense.index_of@, lists@[w]@, ow_seq[w], segs0[q]);
                } else {
                    assert(seg_dir(dense.index_of@, list@, one_way, segs@[q]));
                }
            }
            assert forall|w: int, a: int, b: int|
                0 <= w < i + 1 && #[trigger] next_crossing(dense.index_of@, lists@[w]@, a, b)
                    && dense.index_of@[lists@[w]@[a] as int] != dense.index_of@[lists@[w]@[b] as int] implies has_segment_dir(
                    segs@,
                    0,
                    dense.index_of@[lists@[w]@[a] as int],
                    dense.index_of@[lists@[w]@[b] as int],
                    ow_seq[w],
                ) by {
                let ia = dense.index_of@[lists@[w]@[a] as int];
                let ib = dense.index_of@[lists@[w]@[b] as int];
                if w < i {
                    assert(has_segment_dir(segs0, 0, ia, ib, ow_seq[w]));
                    let q = choose|q: int|
                        0 <= q < segs0.len() && same_pair((#[trigger] segs0[q]).lo, segs0[q].hi, ia, ib)
                            && segs0[q].forward == (ia < ib) && segs0[q].one_way == ow_seq[w];
                    assert(segs@[q] == segs@.take(segs0.len() as int)[q]);
                } else {
                    assert(has_segment_dir(segs@, segs0.len() as int, ia, ib, one_way));
                    let q = choose|q: int|
                        segs0.len() <= q < segs@.len() && same_pair((#[trigger] segs@[q]).lo, segs@[q].hi, ia, ib)
                            && segs@[q].forward == (ia < ib) && segs@[q].one_way == one_way;
                }
            }
            lemma_lens_mono(lists@, i + 1, lists@.len() as int);
            let idx = dense.index_of@;
            assert forall|q: int| 0 <= q < segs@.len() implies segs_from_lists(
                idx,
                lists@,
                i + 1,
                (#[trigger] segs@[q]).lo,
                segs@[q].hi,
            ) by {
                if q < segs0.len() {
                    assert(segs@[q] == segs@.take(segs0.len() as int)[q]);
                    assert(segs_from_lists(idx, lists@, i as int, segs0[q].lo, segs0[q].hi));
                    let w = choose|w: int| 0 <= w < i && #[trigger] from_list(idx, lists@[w]@, segs0[q].lo, segs0[q].hi);
                } else {
                    assert(from_list(idx, list@, segs@[q].lo, segs@[q].hi));
                }
            }
            assert forall|w: int, a: int, b: int|
                0 <= w < i + 1 && #[trigger] next_crossing(idx, lists@[w]@, a, b)
                    && idx[lists@[w]@[a] as int] != idx[lists@[w]@[b] as int] implies has_segment(
                    segs@,
                    0,
                    idx[lists@[w]@[a] as int],
                    idx[lists@[w]@[b] as int],
                ) by {
                if w < i {
                    assert(has_segment(segs0, 0, idx[lists@[w]@[a] as int], idx[lists@[w]@[b] as int]));
                    let q = choose|q: int| 0 <= q < segs0.len() && same_pair(
                        (#[trigger] segs0[q]).lo,
                        segs0[q].hi,
                        idx[lists@[w]@[a] as int],
                        idx[lists@[w]@[b] as int],
                    );
                    assert(segs@[q] == segs@.take(segs0.len() as int)[q]);
                } else {
                    assert(has_segment(segs@, segs0.len() as int, idx[list@[a] as int], idx[list@[b] as int]));
                }
            }
        }
        i = i + 1;
    }
    assert(segs@.len() <= total) by {
        lemma_lens_mono(lists@, lists@.len() as int, lists@.len() as int);
    }
    if segs.len() >= 0xffff_ffffusize {
        return Err(BuildError::TooLarge);
    }
    let merged = merge_segments(&segs, Ghost(node_cells));
    let mut mids: Vec<u64> = Vec::new();
    let mut m: usize = 0;
    while m < merged.len()
        invariant
            m <= merged@.len(),
            mids@.len() == m,
            dense.pos@.len() == dense.cells@.len(),
            node_cells == dense.cells@,
            forall|k: int| 0 <= k < dense.pos@.len() ==> #[trigger] dense.pos@[k] < nodes@.len(),
            forall|q: int| 0 <= q < merged@.len() ==> merged_ok(#[trigger] merged@[q], node_cells),
            forall|q: int| 0 <= q < m ==> #[trigger] mids@[q] == mid_leaf(
                nodes@[dense.pos@[merged@[q].lo as int] as int],
                nodes@[dense.pos@[merged@[q].hi as int] as int],
            ),
        decreases merged@.len() - m,
    {
        let a = &nodes[dense.pos[merged[m].lo as usize]];
        let b = &nodes[dense.pos[merged[m].hi as usize]];
        let c = midpoint_cell(a, b);
        let ghost mids0 = mids@;
        mids.push(c);
        assert forall|q: int| 0 <= q < m + 1 implies #[trigger] mids@[q] == mid_leaf(
            nodes@[dense.pos@[merged@[q].lo as int] as int],
            nodes@[dense.pos@[merged@[q].hi as int] as int],
        ) by {
            if q < m {
                assert(mids@[q] == mids0[q]);
            }
        }
        m = m + 1;
    }
    let ordered = order_edges(&merged, &mids, Ghost(node_cells));
    let k = dense.cells.len();
    let mut signals: Vec<u8> = Vec::new();
    let mut q: usize = 0;
    while q < k
        invariant
            q <= k,
            k == dense.cells@.len(),
            signals@.len() == q,
            forall|x: int| 0 <= x < q ==> #[trigger] signals@[x] == node_signal(nodes@[dense.pos@[x] as int].tags@),
            dense.pos@.len() == dense.cells@.len(),
            forall|x: int| 0 <= x < dense.pos@.len() ==> #[trigger] dense.pos@[x] < nodes@.len(),
        decreases k - q,
    {
        signals.push(signal_of(&nodes[dense.pos[q]].tags));
        q = q + 1;
    }
    let graph_nodes = attach_edges(&ordered.edges, k, &signals);
    let graph = Graph { edges: ordered.edges, nodes: graph_nodes };
    proof {
        let g = graph;
        assert forall|e: int| 0 <= e < g.edges@.len() implies {
            &&& g.incident(#[trigger] g.edges@[e].point_1_node_idx as int).contains(e as u32)
            &&& g.incident(g.edges@[e].point_2_node_idx as int).contains(e as u32)
                == back_allowed(g.edges@[e])
        } by {
            let ed = g.edges@[e];
            assert(placed_edge(ed, ordered.points@[e]@, node_cells));
            assert(incidence(g.edges@, (ed.point_1_node_idx as u64, (e as u32) as u64, 0)));
            assert(!incidence(g.edges@, (ed.point_2_node_idx as u64, (e as u32) as u64, 0)));
        }
        assert forall|n: int, i: int|
            0 <= n < g.nodes@.len() && 0 <= i < g.incident(n).len() implies {
            let e = #[trigger] g.incident(n)[i];
            &&& e < g.edges@.len()
            &&& (g.edges@[e as int].point_1_node_idx == n || g.edges@[e as int].point_2_node_idx == n)
        } by {
            let e = g.incident(n)[i];
            assert(g.nodes@[n].edges@.contains(e));
        }
        assert forall|e: int| 0 <= e < g.edges@.len() implies {
            &&& #[trigger] g.edges@[e].point_1_node_idx < g.edges@[e].point_2_node_idx
            &&& g.edges@[e].point_2_node_idx < g.nodes@.len()
        } by {
            assert(placed_edge(g.edges@[e], ordered.points@[e]@, node_cells));
        }
    }
    let ghost kept = kept_ways(nodes@, ways@, ways@.len() as int);
    let ghost positions = dense.pos@;
    let ghost index_of = dense.index_of@;
    let locations = Locations { node_cells: dense.cells, edge_points: ordered.points };
    let out = GraphBuild { graph, locations, edge_cells: ordered.mids, node_positions: dense.pos };
    proof {
        assert(out.node_positions@ == positions);
        assert(kept == kept_ways(nodes@, ways@, ways@.len() as int));
        assert forall|k: int| 0 <= k < positions.len() implies #[trigger] positions[k] < nodes@.len() && is_crossing(
            kept,
            positions[k],
        ) && out.locations.node_cells@[k] == leaf_at(
            nodes@[positions[k] as int].lat_e7,
            nodes@[positions[k] as int].lng_e7,
        ) by {
            assert(index_of[positions[k] as int] == k);
            assert(crossing@[positions[k] as int]);
        }
        assert forall|p: int| 0 <= p < nodes@.len() && #[trigger] is_crossing(kept, p as usize) implies exists|k: int|
            0 <= k < positions.len() && #[trigger] positions[k] == p by {
            assert(crossing@[p]);
            assert(index_of[p] != NO_INDEX);
            assert(positions[index_of[p] as int] == p);
        }
        assert forall|i: int, j: int| 0 <= i < j < positions.len() implies #[trigger] positions[i]
            != #[trigger] positions[j] by {
            assert(index_of[positions[i] as int] == i);
            assert(index_of[positions[j] as int] == j);
        }
        let es = out.graph.edges@;
        let ls = lists@;
        assert forall|w: int| 0 <= w < ls.len() implies (#[trigger] ls[w])@ == kept[w] by {
            assert(lists@.map_values(|l: Vec<usize>| l@)[w] == ls[w]@);
        }
        lemma_backs(
            kept,
            kept_one_way(nodes@, ways@, ways@.len() as int),
            ls,
            index_of,
            positions,
            nodes@.len() as int,
            segs@,
            merged@,
            es,
        );
        lemma_edges(kept, ls, index_of, positions, nodes@.len() as int, segs@, merged@, es);
        lemma_mids(nodes@, positions, merged@, mids@, es, out.edge_cells@);
        lemma_points(
            nodes@,
            cells@,
            kept,
            ls,
            index_of,
            positions,
            segs@,
            merged@,
            es,
            out.locations.edge_points@,
        );
        lemma_times(
            nodes@,
            kept,
            kept_speed(nodes@, ways@, ways@.len() as int),
            ls,
            index_of,
            positions,
            segs@,
            merged@,
            es,
        );

        assert(edges_exact(out, nodes@, ways@));
    }
    proof {
        assert(out.graph.edges_wf());
        assert(out.graph.nodes_wf());
        assert(out.graph.refs_wf());
        assert(out.graph.wf());
        assert forall|x: int| 0 <= x < out.locations.node_cells@.len() implies is_leaf_cell(
            #[trigger] out.locations.node_cells@[x],
        ) by {
            assert(dense.pos@[x] < nodes@.len());
            assert(is_leaf_cell(cells@[dense.pos@[x] as int]));
        }
        assert forall|e: int| 0 <= e < out.graph.edges@.len() implies 1 <= seconds_of(
            #[trigger] out.graph.edges@[e],
        ) <= MAX_SECONDS by {
            assert(placed_edge(out.graph.edges@[e], ordered.points@[e]@, node_cells));
        }
        assert forall|e: int| 0 <= e < out.graph.edges@.len() implies {
            let pts = (#[trigger] out.locations.edge_points@[e])@;
            &&& pts.len() >= 2
            &&& pts[0] == out.locations.node_cells@[out.graph.edges@[e].point_1_node_idx as int]
            &&& pts.last() == out.locations.node_cells@[out.graph.edges@[e].point_2_node_idx as int]
        } by {
            assert(placed_edge(out.graph.edges@[e], ordered.points@[e]@, node_cells));
        }
    }
    Ok(out)
}

} // verus!
