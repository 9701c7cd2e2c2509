//! The generation engine: rule evaluation shared by both strategies, an
//! exhaustive per-cell scan, a sparse traversal seeded from the live cells,
//! and the batch application of a change list to the board.

use vstd::prelude::*;

verus! {

use crate::board::{
    lemma_wrap_add, lemma_wrap_idempotent, wrap, wrap_spec, LifeBoard,
};

/// One, if the cell is live; zero otherwise.
pub open spec fn count_bool(b: bool) -> int {
    if b {
        1
    } else {
        0
    }
}

/// The number of the 8 toroidally-wrapped neighbor positions of `(x, y)`
/// that are live. On boards narrower than 3 in a direction, several of the
/// positions wrap onto the same cell and each position still counts.
pub open spec fn neighbor_count(b: LifeBoard, x: int, y: int) -> int {
    count_bool(b.spec_get(x - 1, y - 1)) + count_bool(b.spec_get(x, y - 1)) + count_bool(
        b.spec_get(x + 1, y - 1),
    ) + count_bool(b.spec_get(x - 1, y)) + count_bool(b.spec_get(x + 1, y)) + count_bool(
        b.spec_get(x - 1, y + 1),
    ) + count_bool(b.spec_get(x, y + 1)) + count_bool(b.spec_get(x + 1, y + 1))
}

/// The classic rule: a live cell survives with exactly 2 or 3 live
/// neighbors, a dead cell is born with exactly 3.
pub open spec fn next_state(b: LifeBoard, x: int, y: int) -> bool {
    if b.spec_get(x, y) {
        neighbor_count(b, x, y) == 2 || neighbor_count(b, x, y) == 3
    } else {
        neighbor_count(b, x, y) == 3
    }
}

/// Whether the cell at `(x, y)` changes state this generation.
pub open spec fn changes(b: LifeBoard, x: int, y: int) -> bool {
    next_state(b, x, y) != b.spec_get(x, y)
}

/// The eight neighbor offsets, ordered so that entry `7 - d` is the
/// negation of entry `d`.
pub open spec fn neighbor_offsets() -> Seq<(int, int)> {
    seq![
        (-1int, -1int),
        (0int, -1int),
        (1int, -1int),
        (-1int, 0int),
        (1int, 0int),
        (-1int, 1int),
        (0int, 1int),
        (1int, 1int),
    ]
}

/// A change record: an in-range coordinate whose state flips this
/// generation, carrying the state it flips to.
pub open spec fn is_change_entry(b: LifeBoard, e: (usize, usize, bool)) -> bool {
    &&& b.in_range(e.0 as int, e.1 as int)
    &&& changes(b, e.0 as int, e.1 as int)
    &&& e.2 == next_state(b, e.0 as int, e.1 as int)
}

/// No two records of the list name the same coordinate.
pub open spec fn coords_unique(s: Seq<(usize, usize, bool)>) -> bool {
    forall|k1: int, k2: int|
        0 <= k1 < k2 < s.len() ==> ((#[trigger] s[k1]).0, s[k1].1) != ((#[trigger] s[k2]).0,
        s[k2].1)
}

/// Whether the list holds a record for coordinate `(x, y)`.
pub open spec fn has_coord(s: Seq<(usize, usize, bool)>, x: int, y: int) -> bool {
    exists|k: int| 0 <= k < s.len() && (#[trigger] s[k]).0 == x && s[k].1 == y
}

/// The complete change list of a generation: every record is a real
/// change, every changing cell has its record, and no coordinate is
/// recorded twice. This pins the list down up to order, so any two
/// strategies that produce one agree.
pub open spec fn is_change_list(b: LifeBoard, s: Seq<(usize, usize, bool)>) -> bool {
    &&& forall|k: int| 0 <= k < s.len() ==> is_change_entry(b, #[trigger] s[k])
    &&& forall|x: int, y: int|
        b.in_range(x, y) && #[trigger] changes(b, x, y) ==> s.contains(
            ((x as usize), (y as usize), next_state(b, x, y)),
        )
    &&& coords_unique(s)
}

/// The eight coordinate pairs around `(x, y)`, in offset order.
pub fn surrounding_cells(x: isize, y: isize) -> (r: Vec<(isize, isize)>)
    requires
        isize::MIN < x < isize::MAX,
        isize::MIN < y < isize::MAX,
    ensures
        r@.len() == 8,
        forall|k: int|
            0 <= k < 8 ==> (#[trigger] r@[k]).0 as int == x + neighbor_offsets()[k].0 && r@[k].1
                as int == y + neighbor_offsets()[k].1,
{
    let mut r: Vec<(isize, isize)> = Vec::new();
    r.push((x - 1, y - 1));
    r.push((x, y - 1));
    r.push((x + 1, y - 1));
    r.push((x - 1, y));
    r.push((x + 1, y));
    r.push((x - 1, y + 1));
    r.push((x, y + 1));
    r.push((x + 1, y + 1));
    r
}

/// Evaluates the rule at a normalized coordinate against the pre-tick
/// board: the change record, if the cell's state changes this generation.
pub fn eval_cell(b: &LifeBoard, x: usize, y: usize) -> (r: Option<(usize, usize, bool)>)
    requires
        b.wf(),
        x < b.x_size,
        y < b.y_size,
    ensures
        match r {
            Some(e) => e == ((x, y, next_state(*b, x as int, y as int))) && changes(
                *b,
                x as int,
                y as int,
            ),
            None => !changes(*b, x as int, y as int),
        },
{
    let xi = x as isize;
    let yi = y as isize;
    let mut n: u8 = 0;
    if b.get(xi - 1, yi - 1) {
        n = n + 1;
    }
    if b.get(xi, yi - 1) {
        n = n + 1;
    }
    if b.get(xi + 1, yi - 1) {
        n = n + 1;
    }
    if b.get(xi - 1, yi) {
        n = n + 1;
    }
    if b.get(xi + 1, yi) {
        n = n + 1;
    }
    if b.get(xi - 1, yi + 1) {
        n = n + 1;
    }
    if b.get(xi, yi + 1) {
        n = n + 1;
    }
    if b.get(xi + 1, yi + 1) {
        n = n + 1;
    }
    let alive = b.get(xi, yi);
    let next = if alive {
        n == 2 || n == 3
    } else {
        n == 3
    };
    if next != alive {
        Some((x, y, next))
    } else {
        None
    }
}

/// Whether the list already holds a record for `(x, y)`.
fn contains_coord(s: &Vec<(usize, usize, bool)>, x: usize, y: usize) -> (r: bool)
    ensures
        r == has_coord(s@, x as int, y as int),
{
    let n = s.len();
    let mut k: usize = 0;
    while k < n
        invariant
            n == s@.len(),
            k <= n,
            forall|j: int| 0 <= j < k ==> !((#[trigger] s@[j]).0 == x && s@[j].1 == y),
        decreases n - k,
    {
        let e = s[k];
        if e.0 == x && e.1 == y {
            return true;
        }
        k = k + 1;
    }
    false
}

/// The exhaustive strategy: evaluate the rule at every cell of the board,
/// in row-major order, and collect the records of the cells that change.
/// Cost is proportional to the whole board area.
#[verifier::loop_isolation(false)]
pub fn exhaustive_changes(b: &LifeBoard) -> (r: Vec<(usize, usize, bool)>)
    requires
        b.wf(),
    ensures
        is_change_list(*b, r@),
{
    let mut out: Vec<(usize, usize, bool)> = Vec::new();
    let mut y: usize = 0;
    while y < b.y_size
        invariant
            y <= b.y_size,
            forall|k: int| 0 <= k < out@.len() ==> is_change_entry(*b, #[trigger] out@[k]),
            forall|k: int| 0 <= k < out@.len() ==> (#[trigger] out@[k]).1 < y,
            coords_unique(out@),
            forall|cx: int, cy: int|
                b.in_range(cx, cy) && #[trigger] changes(*b, cx, cy) && cy < y ==> out@.contains(
                    ((cx as usize), (cy as usize), next_state(*b, cx, cy)),
                ),
        decreases b.y_size - y,
    {
        let mut x: usize = 0;
        while x < b.x_size
            invariant
                x <= b.x_size,
                forall|k: int| 0 <= k < out@.len() ==> is_change_entry(*b, #[trigger] out@[k]),
                forall|k: int|
                    0 <= k < out@.len() ==> (#[trigger] out@[k]).1 < y || (out@[k].1 == y
                        && out@[k].0 < x),
                coords_unique(out@),
                forall|cx: int, cy: int|
                    b.in_range(cx, cy) && #[trigger] changes(*b, cx, cy) && (cy < y || (cy == y
                        && cx < x)) ==> out@.contains(
                        ((cx as usize), (cy as usize), next_state(*b, cx, cy)),
                    ),
            decreases b.x_size - x,
        {
            let ghost pre = out@;
            if let Some(e) = eval_cell(b, x, y) {
                out.push(e);
                proof {
                    assert(out@ == pre.push(e));
                    assert forall|cx: int, cy: int|
                        b.in_range(cx, cy) && #[trigger] changes(*b, cx, cy) && (cy < y || (cy == y
                            && cx < x + 1)) implies out@.contains(
                        ((cx as usize), (cy as usize), next_state(*b, cx, cy)),
                    ) by {
                        let rec = ((cx as usize), (cy as usize), next_state(*b, cx, cy));
                        if cy == y && cx == x {
                            assert(out@[pre.len() as int] == rec);
                        } else {
                            assert(pre.contains(rec));
                            let j = choose|j: int| 0 <= j < pre.len() && pre[j] == rec;
                            assert(out@[j] == rec);
                        }
                    }
                }
            }
            x = x + 1;
        }
        y = y + 1;
    }
    proof {
        assert forall|cx: int, cy: int|
            b.in_range(cx, cy) && #[trigger] changes(*b, cx, cy) implies out@.contains(
            ((cx as usize), (cy as usize), next_state(*b, cx, cy)),
        ) by {}
    }
    out
}

/// Appends a change record unless its coordinate is already recorded, so
/// that a list of valid records stays valid and coordinate-unique.
fn record_change(out: &mut Vec<(usize, usize, bool)>, e: (usize, usize, bool), Ghost(b): Ghost<
    LifeBoard,
>)
    requires
        forall|k: int| 0 <= k < old(out)@.len() ==> is_change_entry(b, #[trigger] old(out)@[k]),
        coords_unique(old(out)@),
        is_change_entry(b, e),
    ensures
        forall|k: int| 0 <= k < final(out)@.len() ==> is_change_entry(b, #[trigger] final(out)@[k]),
        coords_unique(final(out)@),
        forall|x: int, y: int| #[trigger]
            has_coord(final(out)@, x, y) == (has_coord(old(out)@, x, y) || (x == e.0 && y == e.1)),
{
    let ghost pre = out@;
    if !contains_coord(out, e.0, e.1) {
        out.push(e);
        proof {
            assert(out@ == pre.push(e));
            assert forall|x: int, y: int| #[trigger]
                has_coord(out@, x, y) == (has_coord(pre, x, y) || (x == e.0 && y == e.1)) by {
                if has_coord(pre, x, y) {
                    let k = choose|k: int| 0 <= k < pre.len() && (#[trigger] pre[k]).0 == x
                        && pre[k].1 == y;
                    assert((out@[k]).0 == x && out@[k].1 == y);
                }
                if x == e.0 && y == e.1 {
                    assert((out@[pre.len() as int]).0 == x && out@[pre.len() as int].1 == y);
                }
                if has_coord(out@, x, y) {
                    let k = choose|k: int| 0 <= k < out@.len() && (#[trigger] out@[k]).0 == x
                        && out@[k].1 == y;
                    if k < pre.len() {
                        assert((pre[k]).0 == x && pre[k].1 == y);
                    }
                }
            }
        }
    } else {
        proof {
            assert forall|x: int, y: int| #[trigger]
                has_coord(out@, x, y) == (has_coord(pre, x, y) || (x == e.0 && y == e.1)) by {}
        }
    }
}

/// A coordinate the sparse traversal is bound to reach, given the seed
/// cells walked so far: a seed itself, or a dead cell standing at a
/// wrapped neighbor position of some seed.
pub open spec fn covered(b: LifeBoard, seeds: Seq<(usize, usize)>, x: int, y: int) -> bool {
    ||| seeds.contains(((x as usize), (y as usize)))
    ||| (!b.spec_get(x, y) && exists|j: int, d: int|
        #![trigger seeds[j], neighbor_offsets()[d]]
        0 <= j < seeds.len() && 0 <= d < 8 && x == wrap_spec(
            seeds[j].0 + neighbor_offsets()[d].0,
            b.x_size as int,
        ) && y == wrap_spec(seeds[j].1 + neighbor_offsets()[d].1, b.y_size as int))
}

/// What one inner step of the sparse traversal guarantees: if the
/// neighbor of the seed at offset `dd` is dead and due to change, its
/// record is in the list.
spec fn neighbor_handled(
    b: LifeBoard,
    s: Seq<(usize, usize, bool)>,
    lx: int,
    ly: int,
    dd: int,
) -> bool {
    let nx = lx + neighbor_offsets()[dd].0;
    let ny = ly + neighbor_offsets()[dd].1;
    (!b.spec_get(nx, ny) && changes(
        b,
        wrap_spec(nx, b.x_size as int),
        wrap_spec(ny, b.y_size as int),
    )) ==> has_coord(s, wrap_spec(nx, b.x_size as int), wrap_spec(ny, b.y_size as int))
}

/// A dead in-range cell with a live cell at neighbor offset `d` is covered
/// by any seed list that holds all live cells: the live neighbor is a
/// seed, and the dead cell stands at the opposite offset from it.
proof fn lemma_covered_via_neighbor(
    b: LifeBoard,
    seeds: Seq<(usize, usize)>,
    x: int,
    y: int,
    d: int,
)
    requires
        b.wf(),
        b.in_range(x, y),
        !b.spec_get(x, y),
        0 <= d < 8,
        b.spec_get(x + neighbor_offsets()[d].0, y + neighbor_offsets()[d].1),
        forall|a: usize, c: usize|
            b.in_range(a as int, c as int) && b.spec_get(a as int, c as int)
                ==> #[trigger] seeds.contains((a, c)),
    ensures
        covered(b, seeds, x, y),
{
    let off = neighbor_offsets();
    let dx = off[d].0;
    let dy = off[d].1;
    let xs = b.x_size as int;
    let ys = b.y_size as int;
    lemma_wrap_idempotent(x + dx, xs);
    lemma_wrap_idempotent(y + dy, ys);
    let lx = wrap_spec(x + dx, xs);
    let ly = wrap_spec(y + dy, ys);
    b.lemma_spec_get_congruent(x + dx, y + dy, lx, ly);
    assert(seeds.contains(((lx as usize), (ly as usize))));
    let j = choose|j: int| 0 <= j < seeds.len() && seeds[j] == ((lx as usize), (ly as usize));
    let dr = 7 - d;
    assert(off[dr].0 == -dx && off[dr].1 == -dy) by {
        if d == 0 {
        } else if d == 1 {
        } else if d == 2 {
        } else if d == 3 {
        } else if d == 4 {
        } else if d == 5 {
        } else if d == 6 {
        } else {
            assert(d == 7);
        }
    }
    lemma_wrap_add(x + dx, -dx, xs);
    lemma_wrap_add(y + dy, -dy, ys);
    b.lemma_wrap_of_in_range(x, y);
    assert(wrap_spec(lx + off[dr].0, xs) == x);
    assert(wrap_spec(ly + off[dr].1, ys) == y);
    assert(0 <= j < seeds.len() && 0 <= dr < 8 && x == wrap_spec(seeds[j].0 + off[dr].0, xs) && y
        == wrap_spec(seeds[j].1 + off[dr].1, ys));
}

/// Any cell due to change is covered by a seed list that holds all live
/// cells: a live cell covers itself, and a cell about to be born has three
/// live neighbors, any one of which covers it.
proof fn lemma_changing_is_covered(b: LifeBoard, seeds: Seq<(usize, usize)>, x: int, y: int)
    requires
        b.wf(),
        b.in_range(x, y),
        changes(b, x, y),
        forall|a: usize, c: usize|
            b.in_range(a as int, c as int) && b.spec_get(a as int, c as int)
                ==> #[trigger] seeds.contains((a, c)),
    ensures
        covered(b, seeds, x, y),
{
    if b.spec_get(x, y) {
        assert(seeds.contains(((x as usize), (y as usize))));
    } else {
        let off = neighbor_offsets();
        if b.spec_get(x + off[0].0, y + off[0].1) {
            lemma_covered_via_neighbor(b, seeds, x, y, 0);
        } else if b.spec_get(x + off[1].0, y + off[1].1) {
            lemma_covered_via_neighbor(b, seeds, x, y, 1);
        } else if b.spec_get(x + off[2].0, y + off[2].1) {
            lemma_covered_via_neighbor(b, seeds, x, y, 2);
        } else if b.spec_get(x + off[3].0, y + off[3].1) {
            lemma_covered_via_neighbor(b, seeds, x, y, 3);
        } else if b.spec_get(x + off[4].0, y + off[4].1) {
            lemma_covered_via_neighbor(b, seeds, x, y, 4);
        } else if b.spec_get(x + off[5].0, y + off[5].1) {
            lemma_covered_via_neighbor(b, seeds, x, y, 5);
        } else if b.spec_get(x + off[6].0, y + off[6].1) {
            lemma_covered_via_neighbor(b, seeds, x, y, 6);
        } else if b.spec_get(x + off[7].0, y + off[7].1) {
            lemma_covered_via_neighbor(b, seeds, x, y, 7);
        } else {
            assert(neighbor_count(b, x, y) == 0);
            assert(false);
        }
    }
}

/// The sparse strategy: walk the live-cell snapshot; evaluate the rule at
/// each live cell and at each of its dead neighbors, deduplicating by
/// coordinate. A dead cell with no live neighbor cannot change, so this
/// reaches every changing cell while doing work proportional to the live
/// count, not the board area.
#[verifier::loop_isolation(false)]
pub fn sparse_changes(b: &LifeBoard) -> (r: Vec<(usize, usize, bool)>)
    requires
        b.wf(),
    ensures
        is_change_list(*b, r@),
{
    let live = b.live_cells();
    let mut out: Vec<(usize, usize, bool)> = Vec::new();
    let n = live.len();
    let mut i: usize = 0;
    while i < n
        invariant
            n == live@.len(),
            i <= n,
            forall|k: int| 0 <= k < out@.len() ==> is_change_entry(*b, #[trigger] out@[k]),
            coords_unique(out@),
            forall|cx: int, cy: int|
                b.in_range(cx, cy) && #[trigger] changes(*b, cx, cy) && covered(
                    *b,
                    live@.subrange(0, i as int),
                    cx,
                    cy,
                ) ==> has_coord(out@, cx, cy),
        decreases n - i,
    {
        let p = live[i];
        let lx = p.0;
        let ly = p.1;
        let ghost out_seed = out@;
        if let Some(e) = eval_cell(b, lx, ly) {
            record_change(&mut out, e, Ghost(*b));
        }
        proof {
            assert forall|cx: int, cy: int|
                b.in_range(cx, cy) && #[trigger] changes(*b, cx, cy) && covered(
                    *b,
                    live@.subrange(0, i as int),
                    cx,
                    cy,
                ) implies has_coord(out@, cx, cy) by {
                assert(has_coord(out_seed, cx, cy));
            }
            if changes(*b, lx as int, ly as int) {
                assert(has_coord(out@, lx as int, ly as int));
            }
        }
        let coords = surrounding_cells(lx as isize, ly as isize);
        let mut d: usize = 0;
        while d < 8
            invariant
                d <= 8,
                forall|k: int| 0 <= k < out@.len() ==> is_change_entry(*b, #[trigger] out@[k]),
                coords_unique(out@),
                forall|cx: int, cy: int|
                    b.in_range(cx, cy) && #[trigger] changes(*b, cx, cy) && covered(
                        *b,
                        live@.subrange(0, i as int),
                        cx,
                        cy,
                    ) ==> has_coord(out@, cx, cy),
                changes(*b, lx as int, ly as int) ==> has_coord(out@, lx as int, ly as int),
                forall|dd: int|
                    0 <= dd < d ==> #[trigger] neighbor_handled(*b, out@, lx as int, ly as int, dd),
            decreases 8 - d,
        {
            let ghost out0 = out@;
            let c = coords[d];
            let nx = c.0;
            let ny = c.1;
            proof {
                assert(nx as int == lx + neighbor_offsets()[d as int].0);
                assert(ny as int == ly + neighbor_offsets()[d as int].1);
            }
            if !b.get(nx, ny) {
                let wx = wrap(nx, b.x_size);
                let wy = wrap(ny, b.y_size);
                if let Some(e) = eval_cell(b, wx, wy) {
                    record_change(&mut out, e, Ghost(*b));
                }
                proof {
                    let xs = b.x_size as int;
                    let ys = b.y_size as int;
                    assert forall|dd: int|
                        0 <= dd <= d implies #[trigger] neighbor_handled(
                        *b,
                        out@,
                        lx as int,
                        ly as int,
                        dd,
                    ) by {
                        let nxd = lx + neighbor_offsets()[dd].0;
                        let nyd = ly + neighbor_offsets()[dd].1;
                        let cx = wrap_spec(nxd, xs);
                        let cy = wrap_spec(nyd, ys);
                        if dd < d {
                            assert(neighbor_handled(*b, out0, lx as int, ly as int, dd));
                            if !b.spec_get(nxd, nyd) && changes(*b, cx, cy) {
                                assert(has_coord(out0, cx, cy));
                                assert(has_coord(out@, cx, cy));
                            }
                        } else {
                            if changes(*b, cx, cy) {
                                assert(has_coord(out@, cx, cy));
                            }
                        }
                    }
                    assert forall|cx: int, cy: int|
                        b.in_range(cx, cy) && #[trigger] changes(*b, cx, cy) && covered(
                            *b,
                            live@.subrange(0, i as int),
                            cx,
                            cy,
                        ) implies has_coord(out@, cx, cy) by {
                        assert(has_coord(out0, cx, cy));
                    }
                    if changes(*b, lx as int, ly as int) {
                        assert(has_coord(out0, lx as int, ly as int));
                        assert(has_coord(out@, lx as int, ly as int));
                    }
                }
            }
            d = d + 1;
        }
        proof {
            let prefix0 = live@.subrange(0, i as int);
            let prefix1 = live@.subrange(0, i + 1);
            assert forall|cx: int, cy: int|
                b.in_range(cx, cy) && #[trigger] changes(*b, cx, cy) && covered(
                    *b,
                    prefix1,
                    cx,
                    cy,
                ) implies has_coord(out@, cx, cy) by {
                let xs = b.x_size as int;
                let ys = b.y_size as int;
                if prefix1.contains(((cx as usize), (cy as usize))) {
                    let j = choose|j: int|
                        0 <= j < prefix1.len() && prefix1[j] == ((cx as usize), (cy as usize));
                    if j < i {
                        assert(prefix0[j] == ((cx as usize), (cy as usize)));
                        assert(covered(*b, prefix0, cx, cy));
                    } else {
                        assert(live@[i as int] == ((cx as usize), (cy as usize)));
                        assert(cx == lx as int && cy == ly as int);
                    }
                } else if covered(*b, prefix1, cx, cy) {
                    let (j, dd) = choose|j: int, dd: int|
                        #![trigger prefix1[j], neighbor_offsets()[dd]]
                        0 <= j < prefix1.len() && 0 <= dd < 8 && cx == wrap_spec(
                            prefix1[j].0 + neighbor_offsets()[dd].0,
                            xs,
                        ) && cy == wrap_spec(prefix1[j].1 + neighbor_offsets()[dd].1, ys);
                    if j < i {
                        assert(prefix0[j] == prefix1[j]);
                        assert(covered(*b, prefix0, cx, cy));
                    } else {
                        assert(prefix1[j] == (lx, ly));
                        let nx = lx + neighbor_offsets()[dd].0;
                        let ny = ly + neighbor_offsets()[dd].1;
                        assert(cx == wrap_spec(nx, xs) && cy == wrap_spec(ny, ys));
                        b.lemma_wrap_of_in_range(cx, cy);
                        b.lemma_spec_get_congruent(nx, ny, cx, cy);
                        assert(!b.spec_get(nx, ny));
                        assert(neighbor_handled(*b, out@, lx as int, ly as int, dd));
                    }
                }
            }
        }
        i = i + 1;
    }
    proof {
        assert(live@.subrange(0, n as int) =~= live@);
        assert forall|cx: int, cy: int|
            b.in_range(cx, cy) && #[trigger] changes(*b, cx, cy) implies out@.contains(
            ((cx as usize), (cy as usize), next_state(*b, cx, cy)),
        ) by {
            lemma_changing_is_covered(*b, live@, cx, cy);
            assert(has_coord(out@, cx, cy));
            let k = choose|k: int|
                0 <= k < out@.len() && (#[trigger] out@[k]).0 == cx && out@[k].1 == cy;
            assert(out@[k] == ((cx as usize), (cy as usize), next_state(*b, cx, cy)));
            assert(out@.contains(((cx as usize), (cy as usize), next_state(*b, cx, cy))));
        }
    }
    out
}

/// Applies a batch of change records to the board, as one atomic step
/// after all evaluation: every recorded cell ends in its recorded state,
/// every other cell keeps its state.
#[verifier::loop_isolation(false)]
pub fn apply_changes(b: &mut LifeBoard, list: &Vec<(usize, usize, bool)>)
    requires
        old(b).wf(),
        forall|k: int|
            0 <= k < list@.len() ==> old(b).in_range(
                (#[trigger] list@[k]).0 as int,
                list@[k].1 as int,
            ),
        coords_unique(list@),
    ensures
        final(b).wf(),
        final(b).x_size == old(b).x_size,
        final(b).y_size == old(b).y_size,
        forall|k: int|
            0 <= k < list@.len() ==> final(b).spec_get(
                (#[trigger] list@[k]).0 as int,
                list@[k].1 as int,
            ) == list@[k].2,
        forall|x: int, y: int|
            old(b).in_range(x, y) && !has_coord(list@, x, y) ==> #[trigger] final(b).spec_get(x, y)
                == old(b).spec_get(x, y),
{
    let ghost b0 = *b;
    let n = list.len();
    let mut k: usize = 0;
    while k < n
        invariant
            n == list@.len(),
            k <= n,
            b.wf(),
            b.x_size == b0.x_size,
            b.y_size == b0.y_size,
            forall|j: int|
                0 <= j < k ==> b.spec_get((#[trigger] list@[j]).0 as int, list@[j].1 as int)
                    == list@[j].2,
            forall|x: int, y: int|
                b0.in_range(x, y) && !has_coord(list@, x, y) ==> b.spec_get(x, y) == b0.spec_get(
                    x,
                    y,
                ),
        decreases n - k,
    {
        let ghost bk = *b;
        let e = list[k];
        b.set(e.0 as isize, e.1 as isize, e.2);
        proof {
            bk.lemma_wrap_of_in_range(e.0 as int, e.1 as int);
            assert forall|j: int|
                0 <= j < k + 1 implies b.spec_get(
                (#[trigger] list@[j]).0 as int,
                list@[j].1 as int,
            ) == list@[j].2 by {
                if j < k {
                    assert(((list@[j]).0, list@[j].1) != ((list@[k as int]).0, list@[k as int].1));
                }
            }
            assert forall|x: int, y: int|
                b0.in_range(x, y) && !has_coord(list@, x, y) implies b.spec_get(x, y)
                    == b0.spec_get(x, y) by {
                assert(!((list@[k as int]).0 == x && list@[k as int].1 == y));
            }
        }
        k = k + 1;
    }
}

/// From a complete change list, the applied board reads as the next
/// generation of the one the list was computed from.
proof fn lemma_applied_is_next(pre: LifeBoard, post: LifeBoard, s: Seq<(usize, usize, bool)>)
    requires
        pre.wf(),
        is_change_list(pre, s),
        post.x_size == pre.x_size,
        post.y_size == pre.y_size,
        forall|k: int|
            0 <= k < s.len() ==> post.spec_get((#[trigger] s[k]).0 as int, s[k].1 as int) == s[k].2,
        forall|x: int, y: int|
            pre.in_range(x, y) && !has_coord(s, x, y) ==> post.spec_get(x, y) == pre.spec_get(x, y),
    ensures
        forall|x: int, y: int|
            pre.in_range(x, y) ==> #[trigger] post.spec_get(x, y) == next_state(pre, x, y),
{
    assert forall|x: int, y: int| pre.in_range(x, y) implies post.spec_get(x, y) == next_state(
        pre,
        x,
        y,
    ) by {
        if has_coord(s, x, y) {
            let k = choose|k: int| 0 <= k < s.len() && (#[trigger] s[k]).0 == x && s[k].1 == y;
            assert(is_change_entry(pre, s[k]));
        } else {
            if changes(pre, x, y) {
                let rec = ((x as usize), (y as usize), next_state(pre, x, y));
                assert(s.contains(rec));
                let k = choose|k: int| 0 <= k < s.len() && s[k] == rec;
                assert((s[k]).0 == x && s[k].1 == y);
                assert(false);
            }
        }
    }
}

/// One generation by the exhaustive strategy: compute the full change
/// list over the pre-tick board, then apply it as one batch.
pub fn step_exhaustive(b: &mut LifeBoard)
    requires
        old(b).wf(),
    ensures
        final(b).wf(),
        final(b).x_size == old(b).x_size,
        final(b).y_size == old(b).y_size,
        forall|x: int, y: int|
            old(b).in_range(x, y) ==> #[trigger] final(b).spec_get(x, y) == next_state(
                *old(b),
                x,
                y,
            ),
{
    let list = exhaustive_changes(b);
    apply_changes(b, &list);
    proof {
        lemma_applied_is_next(*old(b), *b, list@);
    }
}

/// One generation by the sparse strategy: compute the change list from
/// the live cells alone, then apply it as one batch. The resulting board
/// is the same as the exhaustive strategy's.
pub fn step_sparse(b: &mut LifeBoard)
    requires
        old(b).wf(),
    ensures
        final(b).wf(),
        final(b).x_size == old(b).x_size,
        final(b).y_size == old(b).y_size,
        forall|x: int, y: int|
            old(b).in_range(x, y) ==> #[trigger] final(b).spec_get(x, y) == next_state(
                *old(b),
                x,
                y,
            ),
{
    let list = sparse_changes(b);
    apply_changes(b, &list);
    proof {
        lemma_applied_is_next(*old(b), *b, list@);
    }
}

/// One direction of strategy equivalence: a record of one complete change
/// list is a record of any other for the same board.
proof fn lemma_change_list_subset(
    b: LifeBoard,
    s1: Seq<(usize, usize, bool)>,
    s2: Seq<(usize, usize, bool)>,
)
    requires
        is_change_list(b, s1),
        is_change_list(b, s2),
    ensures
        forall|e: (usize, usize, bool)| s1.contains(e) ==> s2.contains(e),
{
    assert forall|e: (usize, usize, bool)| s1.contains(e) implies s2.contains(e) by {
        let k = choose|k: int| 0 <= k < s1.len() && s1[k] == e;
        assert(is_change_entry(b, s1[k]));
        assert(changes(b, e.0 as int, e.1 as int));
        assert(s2.contains(((e.0 as int as usize), (e.1 as int as usize), next_state(
            b,
            e.0 as int,
            e.1 as int,
        ))));
    }
}

/// Strategy equivalence: the exhaustive scan and the sparse traversal
/// must agree. Any two complete change lists for the same board hold
/// exactly the same change records, whatever their order.
pub proof fn lemma_strategy_equivalence(
    b: LifeBoard,
    s1: Seq<(usize, usize, bool)>,
    s2: Seq<(usize, usize, bool)>,
)
    requires
        is_change_list(b, s1),
        is_change_list(b, s2),
    ensures
        forall|e: (usize, usize, bool)| s1.contains(e) <==> s2.contains(e),
{
    lemma_change_list_subset(b, s1, s2);
    lemma_change_list_subset(b, s2, s1);
}

/// On a board with no live cell anywhere, every cell reads dead, wherever
/// the coordinates wrap to.
proof fn lemma_all_dead_cell(b: LifeBoard, x: int, y: int)
    requires
        b.wf(),
        forall|a: int, c: int| b.in_range(a, c) ==> !#[trigger] b.spec_get(a, c),
    ensures
        !b.spec_get(x, y),
{
    let xs = b.x_size as int;
    let ys = b.y_size as int;
    lemma_wrap_idempotent(x, xs);
    lemma_wrap_idempotent(y, ys);
    b.lemma_spec_get_congruent(x, y, wrap_spec(x, xs), wrap_spec(y, ys));
}

/// Empty-board stability: an all-dead board has no cell to be born, so
/// its next generation is all-dead again — and hence, generation after
/// generation, it stays all-dead. Every complete change list for it is
/// empty, so neither strategy has anything to apply.
pub proof fn lemma_empty_board_stable(b: LifeBoard)
    requires
        b.wf(),
        forall|a: int, c: int| b.in_range(a, c) ==> !#[trigger] b.spec_get(a, c),
    ensures
        forall|x: int, y: int| !next_state(b, x, y),
        forall|s: Seq<(usize, usize, bool)>| #[trigger] is_change_list(b, s) ==> s.len() == 0,
{
    assert forall|x: int, y: int| !next_state(b, x, y) by {
        lemma_all_dead_cell(b, x, y);
        lemma_all_dead_cell(b, x - 1, y - 1);
        lemma_all_dead_cell(b, x, y - 1);
        lemma_all_dead_cell(b, x + 1, y - 1);
        lemma_all_dead_cell(b, x - 1, y);
        lemma_all_dead_cell(b, x + 1, y);
        lemma_all_dead_cell(b, x - 1, y + 1);
        lemma_all_dead_cell(b, x, y + 1);
        lemma_all_dead_cell(b, x + 1, y + 1);
    }
    assert forall|s: Seq<(usize, usize, bool)>| #[trigger] is_change_list(b, s) implies s.len()
        == 0 by {
        if s.len() > 0 {
            assert(is_change_entry(b, s[0]));
            assert(false);
        }
    }
}

/// The inductive step behind "an empty board stays empty forever": a
/// board holding the next generation of an all-dead board is all-dead
/// itself, so the argument repeats for every further tick.
pub proof fn lemma_empty_board_tick(pre: LifeBoard, post: LifeBoard)
    requires
        pre.wf(),
        forall|a: int, c: int| pre.in_range(a, c) ==> !#[trigger] pre.spec_get(a, c),
        post.x_size == pre.x_size,
        post.y_size == pre.y_size,
        forall|x: int, y: int|
            pre.in_range(x, y) ==> #[trigger] post.spec_get(x, y) == next_state(pre, x, y),
    ensures
        forall|a: int, c: int| post.in_range(a, c) ==> !#[trigger] post.spec_get(a, c),
{
    lemma_empty_board_stable(pre);
}

/// The decision table of the rule, row by row: a live cell dies of
/// underpopulation (fewer than 2 live neighbors) or overpopulation (more
/// than 3) and survives with 2 or 3; a dead cell is born with exactly 3
/// live neighbors and stays dead otherwise.
pub proof fn lemma_rule_table(b: LifeBoard, x: int, y: int)
    ensures
        b.spec_get(x, y) && neighbor_count(b, x, y) < 2 ==> !next_state(b, x, y),
        b.spec_get(x, y) && (neighbor_count(b, x, y) == 2 || neighbor_count(b, x, y) == 3)
            ==> next_state(b, x, y),
        b.spec_get(x, y) && neighbor_count(b, x, y) > 3 ==> !next_state(b, x, y),
        !b.spec_get(x, y) && neighbor_count(b, x, y) == 3 ==> next_state(b, x, y),
        !b.spec_get(x, y) && neighbor_count(b, x, y) != 3 ==> !next_state(b, x, y),
{
}

} // verus!

