//! The triangles of the shapes that are drawn, as positions in their lists of
//! vertices.

use vstd::prelude::*;

verus! {

/// The stops of a gradient that lie strictly between two heights, in order.
pub open spec fn stops_between(stops: Seq<u32>, low: u32, high: u32) -> Seq<u32>
    decreases stops.len(),
{
    if stops.len() == 0 {
        Seq::empty()
    } else if low < stops.last() < high {
        stops_between(stops.drop_last(), low, high).push(stops.last())
    } else {
        stops_between(stops.drop_last(), low, high)
    }
}

/// The heights at which a bar has rows of vertices: its two ends, and the stops
/// of its gradient that lie strictly between two heights.
pub open spec fn row_heights(top: u32, bottom: u32, stops: Seq<u32>, low: u32, high: u32) -> Seq<
    u32,
> {
    (seq![top] + stops_between(stops, low, high)).push(bottom)
}

/// No height comes after a larger one.
pub open spec fn ascending(heights: Seq<u32>) -> bool {
    forall|i: int, j: int|
        0 <= i <= j < heights.len() ==> #[trigger] heights[i] <= #[trigger] heights[j]
}

fn insert_ascending(sorted: &mut Vec<u32>, height: u32)
    requires
        ascending(old(sorted)@),
    ensures
        ascending(final(sorted)@),
        final(sorted)@.to_multiset() == old(sorted)@.to_multiset().insert(height),
{
    let mut at: usize = 0;
    while at < sorted.len() && sorted[at] <= height
        invariant
            at <= sorted@.len(),
            sorted@ == old(sorted)@,
            forall|j: int| 0 <= j < at ==> #[trigger] sorted@[j] <= height,
        decreases sorted@.len() - at,
    {
        at += 1;
    }
    let ghost before = sorted@;
    sorted.insert(at, height);
    proof {
        vstd::seq_lib::to_multiset_insert(before, at as int, height);
    }
    assert forall|i: int, j: int| 0 <= i <= j < sorted@.len() implies #[trigger] sorted@[i]
        <= #[trigger] sorted@[j] by {
        if i < at {
            assert(sorted@[i] == before[i]);
        }
        if i > at {
            assert(sorted@[i] == before[i - 1]);
        }
        if j < at {
            assert(sorted@[j] == before[j]);
        }
        if j > at {
            assert(sorted@[j] == before[j - 1]);
            assert(before[at as int] <= before[j - 1]);
        }
    }
}

/// The heights at which a bar has rows of vertices, from the top down. A height
/// is a number that is ordered as the height on the screen is; `low` and `high`
/// keep stops away from the ends.
pub fn bar_rows(top: u32, bottom: u32, stops: &Vec<u32>, low: u32, high: u32) -> (res: Vec<u32>)
    ensures
        ascending(res@),
        res@.to_multiset() == row_heights(top, bottom, stops@, low, high).to_multiset(),
{
    let mut res: Vec<u32> = Vec::new();
    res.push(top);
    let mut i: usize = 0;
    assert(seq![top] + stops_between(stops@.take(0), low, high) =~= res@);
    while i < stops.len()
        invariant
            i <= stops@.len(),
            ascending(res@),
            res@.to_multiset() == (seq![top] + stops_between(
                stops@.take(i as int),
                low,
                high,
            )).to_multiset(),
        decreases stops@.len() - i,
    {
        let s: u32 = stops[i];
        let ghost front = seq![top] + stops_between(stops@.take(i as int), low, high);
        assert(stops@.take(i + 1).drop_last() =~= stops@.take(i as int));
        assert(stops@.take(i + 1).last() == s);
        if low < s && s < high {
            insert_ascending(&mut res, s);
            assert(seq![top] + stops_between(stops@.take(i + 1), low, high) =~= front.push(s));
            proof {
                vstd::seq_lib::to_multiset_build(front, s);
            }
        }
        i += 1;
    }
    assert(stops@.take(i as int) =~= stops@);
    insert_ascending(&mut res, bottom);
    proof {
        vstd::seq_lib::to_multiset_build(
            seq![top] + stops_between(stops@, low, high),
            bottom,
        );
    }
    res
}

proof fn lemma_stops_between(stops: Seq<u32>, low: u32, high: u32)
    ensures
        forall|i: int|
            0 <= i < stops_between(stops, low, high).len() ==> low < #[trigger] stops_between(
                stops,
                low,
                high,
            )[i] < high,
    decreases stops.len(),
{
    if stops.len() > 0 {
        let front = stops_between(stops.drop_last(), low, high);
        let all = stops_between(stops, low, high);
        lemma_stops_between(stops.drop_last(), low, high);
        assert forall|i: int| 0 <= i < all.len() implies low < #[trigger] all[i] < high by {
            if i < front.len() {
                assert(all[i] == front[i]);
            }
        }
    }
}

/// The stops that count are exactly those strictly between the two heights, in
/// their order.
pub proof fn lemma_stops_between_are_those_between(stops: Seq<u32>, low: u32, high: u32)
    ensures
        stops_between(stops, low, high) == stops.filter(|s: u32| low < s < high),
    decreases stops.len(),
{
    reveal(Seq::filter);
    if stops.len() > 0 {
        lemma_stops_between_are_those_between(stops.drop_last(), low, high);
    }
}

/// The rows of a bar are its two ends and the stops between, each as often as it
/// was given.
pub proof fn lemma_rows_are_ends_and_stops(
    top: u32,
    bottom: u32,
    stops: Seq<u32>,
    low: u32,
    high: u32,
)
    ensures
        row_heights(top, bottom, stops, low, high).to_multiset() == stops.filter(
            |s: u32| low < s < high,
        ).to_multiset().insert(top).insert(bottom),
{
    let between = stops_between(stops, low, high);
    lemma_stops_between_are_those_between(stops, low, high);
    vstd::seq_lib::to_multiset_build(seq![top] + between, bottom);
    vstd::seq_lib::to_multiset_insert(between, 0, top);
    assert(between.insert(0, top) =~= seq![top] + between);
}

/// The rows of a bar run from its one end to the other: where the ends are in
/// order and stops are kept between them, the first row is the top and the last
/// one the bottom.
pub proof fn lemma_rows_run_from_end_to_end(
    rows: Seq<u32>,
    top: u32,
    bottom: u32,
    stops: Seq<u32>,
    low: u32,
    high: u32,
)
    requires
        ascending(rows),
        rows.to_multiset() == row_heights(top, bottom, stops, low, high).to_multiset(),
        top <= low,
        high <= bottom,
        top <= bottom,
    ensures
        rows.len() == stops_between(stops, low, high).len() + 2,
        rows[0] == top,
        rows.last() == bottom,
{
    broadcast use {vstd::seq_lib::to_multiset_contains, vstd::seq_lib::to_multiset_len};

    let all = row_heights(top, bottom, stops, low, high);
    lemma_stops_between(stops, low, high);
    assert(all[0] == top && all[all.len() - 1] == bottom);
    assert forall|i: int| 0 <= i < all.len() implies top <= #[trigger] all[i] <= bottom by {
        if 0 < i < all.len() - 1 {
            assert(all[i] == stops_between(stops, low, high)[i - 1]);
        }
    }
    assert(rows.to_multiset().len() == rows.len() && all.to_multiset().len() == all.len());
    assert(all.contains(top) && all.contains(bottom));
    assert(all.to_multiset().count(top) > 0 && all.to_multiset().count(bottom) > 0);
    assert(rows.contains(top) && rows.contains(bottom));
    assert(rows.contains(rows[0]) && rows.contains(rows.last()));
    assert(rows.to_multiset().count(rows[0]) > 0 && rows.to_multiset().count(rows.last()) > 0);
    assert(all.contains(rows[0]) && all.contains(rows.last()));
}

/// Corner `c` of the six corners that join row `k` of a strip to the next row.
/// Each row has its left vertex before its right one.
pub open spec fn strip_corner(k: int, c: int) -> int {
    if c == 0 {
        2 * k
    } else if c == 1 {
        2 * k + 2
    } else if c == 2 {
        2 * k + 3
    } else if c == 3 {
        2 * k
    } else if c == 4 {
        2 * k + 3
    } else {
        2 * k + 1
    }
}

/// The triangles between the rows of a strip: two between each row and the
/// next.
pub fn strip_indices(rows: usize) -> (res: Vec<u32>)
    requires
        0 < rows,
        2 * rows <= u32::MAX,
    ensures
        res@.len() == 6 * (rows - 1),
        forall|i: int|
            0 <= i < res@.len() ==> #[trigger] res@[i] == strip_corner(i / 6, i % 6),
{
    let mut res: Vec<u32> = Vec::new();
    let mut k: usize = 0;
    while k < rows - 1
        invariant
            0 < rows,
            2 * rows <= u32::MAX,
            k <= rows - 1,
            res@.len() == 6 * k,
            forall|i: int|
                0 <= i < res@.len() ==> #[trigger] res@[i] == strip_corner(i / 6, i % 6),
        decreases rows - k,
    {
        let tl: u32 = (k * 2) as u32;
        res.push(tl);
        res.push(tl + 2);
        res.push(tl + 3);
        res.push(tl);
        res.push(tl + 3);
        res.push(tl + 1);
        k += 1;
    }
    res
}

/// Corner `c` of triangle `k` of a fan round vertex 0.
pub open spec fn fan_corner(k: int, c: int) -> int {
    if c == 0 {
        0
    } else if c == 1 {
        k + 1
    } else {
        k + 2
    }
}

/// The triangles of a fan round vertex 0, whose rim has one vertex more than
/// the fan has segments.
pub fn fan_indices(segments: u32) -> (res: Vec<u32>)
    requires
        segments < u32::MAX,
    ensures
        res@.len() == 3 * segments,
        forall|i: int| 0 <= i < res@.len() ==> #[trigger] res@[i] == fan_corner(i / 3, i % 3),
{
    let mut res: Vec<u32> = Vec::new();
    let mut k: u32 = 0;
    while k < segments
        invariant
            k <= segments < u32::MAX,
            res@.len() == 3 * k,
            forall|i: int| 0 <= i < res@.len() ==> #[trigger] res@[i] == fan_corner(i / 3, i % 3),
        decreases segments - k,
    {
        res.push(0);
        res.push(k + 1);
        res.push(k + 2);
        k += 1;
    }
    res
}

/// Corner `c` of triangle `k` of a closed fan round vertex 0, whose rim has
/// `rim` vertices: the last triangle leads back to the first vertex of the rim.
pub open spec fn closed_fan_corner(rim: int, k: int, c: int) -> int {
    if c == 2 && k == rim - 1 {
        1
    } else {
        fan_corner(k, c)
    }
}

/// The triangles of a closed fan round vertex 0.
pub fn closed_fan_indices(rim: u32) -> (res: Vec<u32>)
    requires
        rim < u32::MAX,
    ensures
        res@.len() == 3 * rim,
        forall|i: int|
            0 <= i < res@.len() ==> #[trigger] res@[i] == closed_fan_corner(
                rim as int,
                i / 3,
                i % 3,
            ),
{
    let mut res: Vec<u32> = Vec::new();
    let mut i: u32 = 1;
    while i <= rim
        invariant
            1 <= i <= rim + 1,
            rim < u32::MAX,
            res@.len() == 3 * (i - 1),
            forall|j: int|
                0 <= j < res@.len() ==> #[trigger] res@[j] == closed_fan_corner(
                    rim as int,
                    j / 3,
                    j % 3,
                ),
        decreases rim + 1 - i,
    {
        let next: u32 = if i == rim {
            1
        } else {
            i + 1
        };
        res.push(0);
        res.push(i);
        res.push(next);
        i += 1;
    }
    res
}

/// The two triangles of a quad whose vertices are the upper left, the upper
/// right, the lower left and the lower right one.
pub fn quad_indices() -> (res: Vec<u32>)
    ensures
        res@ == seq![0u32, 2, 3, 0, 3, 1],
{
    vec![0, 2, 3, 0, 3, 1]
}

/// Every corner names a vertex: of the two in each row of a strip, or of the
/// centre and the rim of a fan.
pub proof fn lemma_corners_name_vertices(n: int, k: int, c: int)
    requires
        0 <= k < n,
        0 <= c < 6,
    ensures
        0 <= strip_corner(k, c) < 2 * (n + 1),
        c < 3 ==> 0 <= fan_corner(k, c) < n + 2,
        c < 3 ==> 0 <= closed_fan_corner(n, k, c) < n + 1,
{
}

/// The triangles of a fan follow one another: each starts on the rim where the
/// one before it ended, and in a closed fan the first starts where the last
/// ended.
pub proof fn lemma_fans_have_no_gaps(n: int, k: int)
    requires
        0 <= k < n,
    ensures
        k + 1 < n ==> fan_corner(k, 2) == fan_corner(k + 1, 1),
        closed_fan_corner(n, k, 2) == closed_fan_corner(
            n,
            if k + 1 < n {
                k + 1
            } else {
                0
            },
            1,
        ),
{
}

/// Between row `k` of a strip, whose vertices are `2 k` on the left and `2 k + 1`
/// on the right, and the next row lie two triangles that share the diagonal:
/// one at the lower left and one at the upper right.
pub proof fn lemma_strips_are_made_of_quads(k: int)
    ensures
        strip_corner(k, 0) == 2 * k,
        strip_corner(k, 1) == 2 * (k + 1),
        strip_corner(k, 2) == 2 * (k + 1) + 1,
        strip_corner(k, 3) == strip_corner(k, 0),
        strip_corner(k, 4) == strip_corner(k, 2),
        strip_corner(k, 5) == 2 * k + 1,
        strip_corner(k, 1) == strip_corner(k + 1, 0),
        strip_corner(k, 2) == strip_corner(k + 1, 5),
{
}

/// Triangle `k` of a fan joins the centre to two neighbours on the rim, whose
/// first vertex is vertex 1; the last triangle of a closed fan leads back to it.
pub proof fn lemma_fans_join_neighbours(n: int, k: int)
    requires
        0 <= k < n,
    ensures
        fan_corner(k, 0) == 0,
        fan_corner(k, 1) == 1 + k,
        fan_corner(k, 2) == fan_corner(k, 1) + 1,
        closed_fan_corner(n, k, 0) == 0,
        closed_fan_corner(n, k, 1) == 1 + k,
        k + 1 < n ==> closed_fan_corner(n, k, 2) == closed_fan_corner(n, k, 1) + 1,
        k + 1 == n ==> closed_fan_corner(n, k, 2) == 1,
{
}

} // verus!
