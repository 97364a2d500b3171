use grid::Grid;
use vstd::prelude::*;

verus! {

#[verifier::external_type_specification]
#[verifier::external_body]
#[verifier::reject_recursive_types(T)]
pub struct ExGrid<T>(Grid<T>);

/// What a grid of characters holds, by row and column.
pub uninterp spec fn grid_layout(g: Grid<char>) -> Map<(usize, usize), char>;

/// `cells` laid out row by row, `cols` to a row.
pub open spec fn row_major(cells: Seq<char>, cols: nat) -> Map<(usize, usize), char> {
    Map::new(
        |p: (usize, usize)| p.1 < cols && p.0 * cols + p.1 < cells.len(),
        |p: (usize, usize)| cells[p.0 * cols + p.1],
    )
}

/// Relies on `grid::Grid::from_vec`: the grid holds `cells` row by row, `cols` to a row. It
/// panics unless `cols` divides the number of cells.
#[verifier::external_body]
fn grid_from_cells(cells: Vec<char>, cols: usize) -> (g: Grid<char>)
    requires
        cols > 0,
        cells.len() % cols == 0,
    ensures
        grid_layout(g) == row_major(cells@, cols as nat),
{
    Grid::from_vec(cells, cols)
}

/// Relies on `grid::Grid::indexed_iter`: it visits each cell once, with its row and column.
#[verifier::external_body]
fn grid_cells(g: &Grid<char>) -> (r: Vec<((usize, usize), char)>)
    ensures
        forall|k: int|
            0 <= k < r@.len() ==> grid_layout(*g).contains_key(#[trigger] r@[k].0)
                && grid_layout(*g)[r@[k].0] == r@[k].1,
        forall|p: (usize, usize)|
            #[trigger] grid_layout(*g).contains_key(p) ==> exists|k: int|
                0 <= k < r@.len() && r@[k].0 == p,
{
    g.indexed_iter().map(|(p, c)| (p, *c)).collect()
}

/// Whether row `x`, column `y` lies inside a map of `height` rows and `width` columns.
pub fn bound_check(x: i32, y: i32, width: usize, height: usize) -> (r: bool)
    requires
        width <= i32::MAX,
        height <= i32::MAX,
    ensures
        r == (0 <= x < height && 0 <= y < width),
{
    x >= 0 && x < (height as i32) && y >= 0 && y < (width as i32)
}

/// The position `q` lies on the map that `cells` fills, `width` to a row.
pub open spec fn inside(cells: Seq<char>, width: nat, q: (int, int)) -> bool {
    0 <= q.0 < cells.len() / width && 0 <= q.1 < width
}

/// The character at position `p` of the map.
pub open spec fn at(cells: Seq<char>, width: nat, p: (int, int)) -> char {
    cells[p.0 * width + p.1]
}

/// `a` and `b` are two antennas of the same frequency: distinct cells that hold the same
/// character other than `.`.
pub open spec fn paired(cells: Seq<char>, width: nat, a: (int, int), b: (int, int)) -> bool {
    &&& a != b
    &&& inside(cells, width, a)
    &&& inside(cells, width, b)
    &&& at(cells, width, a) != '.'
    &&& at(cells, width, a) == at(cells, width, b)
}

/// The positions on the map that lie beyond one antenna of a pair as far again as the other
/// stands from it.
pub open spec fn antinodes(cells: Seq<char>, width: nat) -> Set<(i32, i32)> {
    Set::new(
        |q: (i32, i32)|
            inside(cells, width, (q.0 as int, q.1 as int)) && exists|a: (int, int), b: (int, int)|
                #[trigger] paired(cells, width, a, b) && q.0 == 2 * a.0 - b.0 && q.1 == 2 * a.1
                    - b.1,
    )
}

/// A position of the map sits in `cells` at row times width plus column.
proof fn lemma_inside_index(cells: Seq<char>, width: nat, p: (int, int))
    requires
        width > 0,
        inside(cells, width, p),
    ensures
        0 <= p.0 * width + p.1 < cells.len(),
{
    let h = cells.len() / width;
    assert(0 <= p.0 * width + p.1 < cells.len()) by (nonlinear_arith)
        requires
            0 <= p.0 < h,
            0 <= p.1 < width,
            h == cells.len() / width,
            width > 0,
    ;
}

/// A cell of the grid laid out from `cells` lies on the map, and holds what `at` says.
proof fn lemma_cell_inside(cells: Seq<char>, width: nat, x: usize, y: usize)
    requires
        width > 0,
        cells.len() % width == 0,
        row_major(cells, width).contains_key((x, y)),
    ensures
        inside(cells, width, (x as int, y as int)),
        at(cells, width, (x as int, y as int)) == row_major(cells, width)[(x, y)],
{
    assert(x < (cells.len() as int) / (width as int)) by (nonlinear_arith)
        requires
            x * width + y < cells.len(),
            cells.len() % width == 0,
            width > 0,
            y >= 0,
    ;
}

/// The antennas of the map, each with its row, column and frequency.
fn antenna_list(cells: &Vec<char>, width: usize) -> (r: Vec<(i32, i32, char)>)
    requires
        width > 0,
        cells.len() % width == 0,
        cells.len() <= 0x3fff_ffff,
    ensures
        forall|k: int|
            0 <= k < r@.len() ==> inside(cells@, width as nat, (r@[k].0 as int, r@[k].1 as int))
                && at(cells@, width as nat, (#[trigger] r@[k].0 as int, r@[k].1 as int)) == r@[k].2
                && r@[k].2 != '.',
        forall|p: (int, int)|
            inside(cells@, width as nat, p) && #[trigger] at(cells@, width as nat, p) != '.'
                ==> exists|k: int| 0 <= k < r@.len() && r@[k].0 == p.0 && r@[k].1 == p.1,
{
    let g = grid_from_cells(cells.clone(), width);
    let all = grid_cells(&g);
    let ghost layout = row_major(cells@, width as nat);
    let mut r: Vec<(i32, i32, char)> = Vec::new();
    let mut k: usize = 0;
    while k < all.len()
        invariant
            width > 0,
            cells.len() % width == 0,
            cells.len() <= 0x3fff_ffff,
            layout == row_major(cells@, width as nat),
            grid_layout(g) == layout,
            k <= all.len(),
            forall|m: int|
                0 <= m < all@.len() ==> layout.contains_key(#[trigger] all@[m].0) && layout[all@[m].0]
                    == all@[m].1,
            forall|i: int|
                0 <= i < r@.len() ==> inside(cells@, width as nat, (r@[i].0 as int, r@[i].1 as int))
                    && at(cells@, width as nat, (#[trigger] r@[i].0 as int, r@[i].1 as int))
                    == r@[i].2 && r@[i].2 != '.',
            forall|m: int|
                #![trigger all@[m]]
                0 <= m < k && all@[m].1 != '.' ==> exists|i: int|
                    0 <= i < r@.len() && #[trigger] r@[i].0 == all@[m].0.0 && r@[i].1
                        == all@[m].0.1,
        decreases all.len() - k,
    {
        let ((x, y), c) = all[k];
        assert(all@[k as int] == ((x, y), c));
        if c != '.' {
            proof {
                assert(layout.contains_key(all@[k as int].0));
                lemma_cell_inside(cells@, width as nat, x, y);
                lemma_inside_index(cells@, width as nat, (x as int, y as int));
            }
            let ghost old_r = r@;
            r.push((x as i32, y as i32, c));
            proof {
                assert(r@[old_r.len() as int] == (x as i32, y as i32, c));
                assert forall|i: int| 0 <= i < old_r.len() implies r@[i] == old_r[i] by {}
                assert forall|m: int|
                    #![trigger all@[m]]
                    0 <= m < k + 1 && all@[m].1 != '.' implies exists|i: int|
                        0 <= i < r@.len() && #[trigger] r@[i].0 == all@[m].0.0 && r@[i].1
                            == all@[m].0.1 by {
                    if m < k {
                        let i = choose|i: int|
                            0 <= i < old_r.len() && old_r[i].0 == all@[m].0.0 && old_r[i].1
                                == all@[m].0.1;
                        assert(r@[i] == old_r[i]);
                    } else {
                        assert(r@[old_r.len() as int].0 == all@[m].0.0);
                    }
                }
            }
        } else {
            assert forall|m: int|
                #![trigger all@[m]]
                0 <= m < k + 1 && all@[m].1 != '.' implies exists|i: int|
                    0 <= i < r@.len() && #[trigger] r@[i].0 == all@[m].0.0 && r@[i].1
                        == all@[m].0.1 by {
                assert(m != k);
            }
        }
        k += 1;
    }
    proof {
        assert forall|p: (int, int)|
            inside(cells@, width as nat, p) && #[trigger] at(cells@, width as nat, p) != '.'
                implies exists|k: int| 0 <= k < r@.len() && r@[k].0 == p.0 && r@[k].1 == p.1 by {
            lemma_inside_index(cells@, width as nat, p);
            let up = (p.0 as usize, p.1 as usize);
            assert(layout.contains_key(up));
            let m = choose|m: int| 0 <= m < all@.len() && all@[m].0 == up;
            assert(all@[m].1 == layout[up]);
            assert(all@[m].1 != '.');
            assert(all@[m].0.0 == up.0);
        }
    }
    r
}

/// Whether `list` holds `q`.
fn holds_position(list: &Vec<(i32, i32)>, q: (i32, i32)) -> (r: bool)
    ensures
        r == list@.contains(q),
{
    let mut i: usize = 0;
    while i < list.len()
        invariant
            i <= list.len(),
            forall|k: int| 0 <= k < i ==> list@[k] != q,
        decreases list.len() - i,
    {
        if list[i].0 == q.0 && list[i].1 == q.1 {
            assert(list@[i as int] == q);
            return true;
        }
        i += 1;
    }
    false
}

/// The pair of antennas at entries `a` and `b` of `ants`, if they differ and share a
/// frequency, has its antinode beyond `a` in `res` whenever that lies on the map.
pub open spec fn pair_done(
    cells: Seq<char>,
    width: nat,
    ants: Seq<(i32, i32, char)>,
    res: Seq<(i32, i32)>,
    a: int,
    b: int,
) -> bool {
    let (ax, ay, ac) = ants[a];
    let (bx, by, bc) = ants[b];
    (ac == bc && (ax, ay) != (bx, by) && inside(cells, width, (2 * ax - bx, 2 * ay - by)))
        ==> res.contains(((2 * ax - bx) as i32, (2 * ay - by) as i32))
}

/// How many distinct positions of the map are antinodes. The map is `cells` laid out row by
/// row, `width` to a row.
pub fn part1(cells: &Vec<char>, width: usize) -> (r: usize)
    requires
        cells.len() > 0 ==> width > 0 && cells.len() % width == 0,
        cells.len() <= 0x3fff_ffff,
    ensures
        r == antinodes(cells@, width as nat).len(),
{
    if cells.len() == 0 {
        proof {
            assert(antinodes(cells@, width as nat) =~= Set::empty()) by {
                if width > 0 {
                    assert(cells@.len() / (width as nat) == 0);
                }
            }
        }
        return 0;
    }
    assert(width <= cells.len()) by (nonlinear_arith)
        requires
            cells.len() > 0,
            width > 0,
            cells.len() % width == 0,
    ;
    let ants = antenna_list(cells, width);
    let height = cells.len() / width;
    let ghost w = width as nat;
    let mut res: Vec<(i32, i32)> = Vec::new();
    let mut i: usize = 0;
    while i < ants.len()
        invariant
            0 < width <= cells.len(),
            w == width,
            cells.len() % width == 0,
            cells.len() <= 0x3fff_ffff,
            height == cells.len() / width,
            i <= ants.len(),
            forall|k: int|
                0 <= k < ants@.len() ==> inside(cells@, w, (ants@[k].0 as int, ants@[k].1 as int))
                    && at(cells@, w, (#[trigger] ants@[k].0 as int, ants@[k].1 as int))
                    == ants@[k].2 && ants@[k].2 != '.',
            res@.no_duplicates(),
            forall|q: (i32, i32)| #[trigger] res@.contains(q) ==> antinodes(cells@, w).contains(q),
            forall|a: int, b: int|
                0 <= a < i && 0 <= b < ants@.len() ==> #[trigger] pair_done(cells@, w, ants@, res@, a, b),
        decreases ants.len() - i,
    {
        let mut j: usize = 0;
        while j < ants.len()
            invariant
                0 < width <= cells.len(),
                w == width,
                cells.len() % width == 0,
                cells.len() <= 0x3fff_ffff,
                height == cells.len() / width,
                i < ants.len(),
                j <= ants.len(),
                forall|k: int|
                    0 <= k < ants@.len() ==> inside(cells@, w, (ants@[k].0 as int, ants@[k].1 as int))
                        && at(cells@, w, (#[trigger] ants@[k].0 as int, ants@[k].1 as int))
                        == ants@[k].2 && ants@[k].2 != '.',
                res@.no_duplicates(),
                forall|q: (i32, i32)| #[trigger] res@.contains(q) ==> antinodes(cells@, w).contains(q),
                forall|a: int, b: int|
                    0 <= a < i && 0 <= b < ants@.len() ==> #[trigger] pair_done(cells@, w, ants@, res@, a, b),
                forall|b: int| 0 <= b < j ==> #[trigger] pair_done(cells@, w, ants@, res@, i as int, b),
            decreases ants.len() - j,
        {
            let (ax, ay, ac) = ants[i];
            let (bx, by, bc) = ants[j];
            let ghost old_res = res@;
            assert(forall|q: (i32, i32)| old_res.contains(q) ==> antinodes(cells@, w).contains(q));
            if ac == bc && (ax != bx || ay != by) {
                let qx = 2 * ax - bx;
                let qy = 2 * ay - by;
                if bound_check(qx, qy, width, height) && !holds_position(&res, (qx, qy)) {
                    proof {
                        let a = (ax as int, ay as int);
                        let b = (bx as int, by as int);
                        assert(at(cells@, w, a) == ac);
                        assert(at(cells@, w, b) == bc);
                        assert(paired(cells@, w, a, b));
                        assert(antinodes(cells@, w).contains((qx, qy)));
                    }
                    res.push((qx, qy));
                    proof {
                        assert forall|q: (i32, i32)| #[trigger] res@.contains(q) implies antinodes(
                            cells@,
                            w,
                        ).contains(q) by {
                            if q != (qx, qy) {
                                let k = choose|k: int| 0 <= k < res@.len() && res@[k] == q;
                                assert(k < old_res.len());
                                assert(old_res[k] == q);
                                assert(old_res.contains(q));
                            }
                        }
                        assert(res@.contains((qx, qy))) by {
                            assert(res@[old_res.len() as int] == (qx, qy));
                        }
                        assert forall|q: (i32, i32)| old_res.contains(q) implies res@.contains(q) by {
                            let k = choose|k: int| 0 <= k < old_res.len() && old_res[k] == q;
                            assert(res@[k] == q);
                        }
                    }
                }
            }
            proof {
                assert forall|q: (i32, i32)| old_res.contains(q) implies res@.contains(q) by {
                    if res@ != old_res {
                        let k = choose|k: int| 0 <= k < old_res.len() && old_res[k] == q;
                        assert(res@[k] == q);
                    }
                }
                assert forall|a: int, b: int|
                    (0 <= a < i && 0 <= b < ants@.len()) || (a == i && 0 <= b <= j) implies #[trigger] pair_done(
                    cells@,
                    w,
                    ants@,
                    res@,
                    a,
                    b,
                ) by {
                    if a < i || b < j {
                        assert(pair_done(cells@, w, ants@, old_res, a, b));
                    }
                }
            }
            j += 1;
        }
        i += 1;
    }
    proof {
        assert forall|q: (i32, i32)| antinodes(cells@, w).contains(q) implies #[trigger] res@.contains(
            q,
        ) by {
            let (a, b) = choose|a: (int, int), b: (int, int)|
                #[trigger] paired(cells@, w, a, b) && q.0 == 2 * a.0 - b.0 && q.1 == 2 * a.1 - b.1;
            assert(at(cells@, w, a) != '.');
            let ka = choose|k: int| 0 <= k < ants@.len() && ants@[k].0 == a.0 && ants@[k].1 == a.1;
            assert(at(cells@, w, b) != '.');
            let kb = choose|k: int| 0 <= k < ants@.len() && ants@[k].0 == b.0 && ants@[k].1 == b.1;
            assert(pair_done(cells@, w, ants@, res@, ka, kb));
            assert(ants@[ka].2 == at(cells@, w, a));
            assert(ants@[kb].2 == at(cells@, w, b));
        }
        assert(res@.to_set() =~= antinodes(cells@, w));
        res@.unique_seq_to_set();
    }
    res.len()
}

/// The positions of the map in line with some pair of antennas of the same frequency, at
/// any whole multiple of their distance from the first of them.
pub open spec fn resonant_antinodes(cells: Seq<char>, width: nat) -> Set<(i32, i32)> {
    Set::new(
        |q: (i32, i32)|
            inside(cells, width, (q.0 as int, q.1 as int)) && exists|
                a: (int, int),
                b: (int, int),
                t: int,
            |
                #![trigger paired(cells, width, a, b), walk(a.0, a.1, b.0 - a.0, b.1 - a.1, t)]
                paired(cells, width, a, b) && (q.0 as int, q.1 as int) == walk(
                    a.0,
                    a.1,
                    b.0 - a.0,
                    b.1 - a.1,
                    t,
                ),
    )
}

/// The point `k` steps of `(dx, dy)` away from `(x, y)`.
pub open spec fn walk(x: int, y: int, dx: int, dy: int, k: int) -> (int, int) {
    (x + k * dx, y + k * dy)
}

/// Walking from a point of the map, once a step leaves the map every later step stays off it.
proof fn lemma_walk_leaves(cells: Seq<char>, width: nat, x: int, y: int, dx: int, dy: int, k: int, k2: int)
    requires
        inside(cells, width, (x, y)),
        !inside(cells, width, walk(x, y, dx, dy, k)),
        0 <= k <= k2,
    ensures
        !inside(cells, width, walk(x, y, dx, dy, k2)),
{
    let h = cells.len() / width;
    assert(!(0 <= x + k2 * dx < h && 0 <= y + k2 * dy < width)) by (nonlinear_arith)
        requires
            0 <= x < h,
            0 <= y < width,
            !(0 <= x + k * dx < h && 0 <= y + k * dy < width),
            0 <= k <= k2,
    ;
}

/// How far a walk in steps of `(dx, dy)` standing at `(x, y)` still has to go, along one
/// coordinate that moves, before it leaves a map of `h` rows and `w` columns.
pub open spec fn walk_measure(x: int, y: int, dx: int, dy: int, h: int, w: int) -> nat {
    let left = if dx > 0 {
        h - x
    } else if dx < 0 {
        x + 1
    } else if dy > 0 {
        w - y
    } else {
        y + 1
    };
    if left > 0 {
        left as nat
    } else {
        0
    }
}

/// Walking from `(ax, ay)` in steps of `(ax - bx, ay - by)`, every point on the map is in `res`.
pub open spec fn walk_done(
    cells: Seq<char>,
    width: nat,
    ants: Seq<(i32, i32, char)>,
    res: Seq<(i32, i32)>,
    a: int,
    b: int,
) -> bool {
    let (ax, ay, ac) = ants[a];
    let (bx, by, bc) = ants[b];
    (ac == bc && (ax, ay) != (bx, by)) ==> forall|k: int|
        k >= 0 && inside(cells, width, #[trigger] walk(ax as int, ay as int, ax - bx, ay - by, k))
            ==> res.contains(
            (walk(ax as int, ay as int, ax - bx, ay - by, k).0 as i32, walk(
                ax as int,
                ay as int,
                ax - bx,
                ay - by,
                k,
            ).1 as i32),
        )
}

/// How many distinct positions of the map are in line with two antennas of the same
/// frequency. The map is `cells` laid out row by row, `width` to a row.
pub fn part2(cells: &Vec<char>, width: usize) -> (r: usize)
    requires
        cells.len() > 0 ==> width > 0 && cells.len() % width == 0,
        cells.len() <= 0x3fff_ffff,
    ensures
        r == resonant_antinodes(cells@, width as nat).len(),
{
    if cells.len() == 0 {
        proof {
            assert(resonant_antinodes(cells@, width as nat) =~= Set::empty()) by {
                if width > 0 {
                    assert(cells@.len() / (width as nat) == 0);
                }
            }
        }
        return 0;
    }
    assert(width <= cells.len()) by (nonlinear_arith)
        requires
            cells.len() > 0,
            width > 0,
            cells.len() % width == 0,
    ;
    let ants = antenna_list(cells, width);
    let height = cells.len() / width;
    let ghost w = width as nat;
    let mut res: Vec<(i32, i32)> = Vec::new();
    let mut i: usize = 0;
    while i < ants.len()
        invariant
            0 < width <= cells.len(),
            w == width,
            cells.len() % width == 0,
            cells.len() <= 0x3fff_ffff,
            height == cells.len() / width,
            i <= ants.len(),
            forall|k: int|
                0 <= k < ants@.len() ==> inside(cells@, w, (ants@[k].0 as int, ants@[k].1 as int))
                    && at(cells@, w, (#[trigger] ants@[k].0 as int, ants@[k].1 as int))
                    == ants@[k].2 && ants@[k].2 != '.',
            res@.no_duplicates(),
            forall|q: (i32, i32)|
                #[trigger] res@.contains(q) ==> resonant_antinodes(cells@, w).contains(q),
            forall|a: int, b: int|
                0 <= a < i && 0 <= b < ants@.len() ==> #[trigger] walk_done(cells@, w, ants@, res@, a, b),
        decreases ants.len() - i,
    {
        let mut j: usize = 0;
        while j < ants.len()
            invariant
                0 < width <= cells.len(),
                w == width,
                cells.len() % width == 0,
                cells.len() <= 0x3fff_ffff,
                height == cells.len() / width,
                i < ants.len(),
                j <= ants.len(),
                forall|k: int|
                    0 <= k < ants@.len() ==> inside(cells@, w, (ants@[k].0 as int, ants@[k].1 as int))
                        && at(cells@, w, (#[trigger] ants@[k].0 as int, ants@[k].1 as int))
                        == ants@[k].2 && ants@[k].2 != '.',
                res@.no_duplicates(),
                forall|q: (i32, i32)|
                    #[trigger] res@.contains(q) ==> resonant_antinodes(cells@, w).contains(q),
                forall|a: int, b: int|
                    0 <= a < i && 0 <= b < ants@.len() ==> #[trigger] walk_done(cells@, w, ants@, res@, a, b),
                forall|b: int| 0 <= b < j ==> #[trigger] walk_done(cells@, w, ants@, res@, i as int, b),
            decreases ants.len() - j,
        {
            let (ax, ay, ac) = ants[i];
            let (bx, by, bc) = ants[j];
            let ghost res_before = res@;
            if ac == bc && (ax != bx || ay != by) {
                let dx = ax - bx;
                let dy = ay - by;
                let ghost a = (ax as int, ay as int);
                let ghost b = (bx as int, by as int);
                proof {
                    assert(at(cells@, w, a) == ac);
                    assert(at(cells@, w, b) == bc);
                    assert(paired(cells@, w, a, b));
                }
                let mut x = ax;
                let mut y = ay;
                let ghost mut k: int = 0;
                while bound_check(x, y, width, height)
                    invariant
                        0 < width <= cells.len(),
                        w == width,
                        cells.len() <= 0x3fff_ffff,
                        height == cells.len() / width,
                        paired(cells@, w, a, b),
                        a == (ax as int, ay as int),
                        b == (bx as int, by as int),
                        dx == ax - bx,
                        dy == ay - by,
                        dx != 0 || dy != 0,
                        k >= 0,
                        (x as int, y as int) == walk(ax as int, ay as int, dx as int, dy as int, k),
                        forall|m: int| 0 <= m < k ==> inside(cells@, w, #[trigger] walk(ax as int, ay as int, dx as int, dy as int, m)),
                        forall|m: int| 0 <= m < k ==> res@.contains(
                            (#[trigger] walk(ax as int, ay as int, dx as int, dy as int, m).0 as i32,
                            walk(ax as int, ay as int, dx as int, dy as int, m).1 as i32),
                        ),
                        forall|q: (i32, i32)| res_before.contains(q) ==> #[trigger] res@.contains(q),
                        res@.no_duplicates(),
                        forall|q: (i32, i32)|
                            #[trigger] res@.contains(q) ==> resonant_antinodes(cells@, w).contains(q),
                    decreases walk_measure(x as int, y as int, dx as int, dy as int, height as int, width as int),
                {
                    proof {
                        assert(inside(cells@, w, (x as int, y as int)));
                        assert(resonant_antinodes(cells@, w).contains((x, y))) by {
                            assert((x as int, y as int) == walk(a.0, a.1, b.0 - a.0, b.1 - a.1, -k))
                                by (nonlinear_arith)
                                requires
                                    x == a.0 + k * (a.0 - b.0),
                                    y == a.1 + k * (a.1 - b.1),
                            ;
                        }
                    }
                    let ghost res_mid = res@;
                    if !holds_position(&res, (x, y)) {
                        res.push((x, y));
                        proof {
                            assert(res@[res_mid.len() as int] == (x, y));
                            assert forall|q: (i32, i32)| res_mid.contains(q) implies #[trigger] res@.contains(q) by {
                                let n = choose|n: int| 0 <= n < res_mid.len() && res_mid[n] == q;
                                assert(res@[n] == q);
                            }
                            assert forall|q: (i32, i32)| #[trigger] res@.contains(q) implies resonant_antinodes(
                                cells@,
                                w,
                            ).contains(q) by {
                                if q != (x, y) {
                                    let n = choose|n: int| 0 <= n < res@.len() && res@[n] == q;
                                    assert(res_mid[n] == q);
                                    assert(res_mid.contains(q));
                                }
                            }
                        }
                    }
                    proof {
                        assert(res@.contains((x, y)));
                        assert(walk(ax as int, ay as int, dx as int, dy as int, k + 1) == (x + dx, y + dy)) by (nonlinear_arith)
                            requires
                                (x as int, y as int) == walk(ax as int, ay as int, dx as int, dy as int, k),
                        ;
                    }
                    let ghost before = walk_measure(x as int, y as int, dx as int, dy as int, height as int, width as int);
                    assert(before > 0);
                    x = x + dx;
                    y = y + dy;
                    assert(walk_measure(x as int, y as int, dx as int, dy as int, height as int, width as int) < before);
                    proof {
                        k = k + 1;
                    }
                }
                proof {
                    assert(walk_done(cells@, w, ants@, res@, i as int, j as int)) by {
                        assert forall|m: int|
                            m >= 0 && inside(cells@, w, #[trigger] walk(ax as int, ay as int, dx as int, dy as int, m))
                                implies res@.contains(
                                (walk(ax as int, ay as int, dx as int, dy as int, m).0 as i32,
                                walk(ax as int, ay as int, dx as int, dy as int, m).1 as i32),
                            ) by {
                            if m >= k {
                                assert(walk(ax as int, ay as int, dx as int, dy as int, 0) == a);
                                lemma_walk_leaves(cells@, w, ax as int, ay as int, dx as int, dy as int, k, m);
                            }
                        }
                    }
                }
            }
            proof {
                assert forall|a: int, b: int|
                    (0 <= a < i && 0 <= b < ants@.len()) || (a == i && 0 <= b <= j) implies #[trigger] walk_done(
                    cells@,
                    w,
                    ants@,
                    res@,
                    a,
                    b,
                ) by {
                    if a < i || b < j {
                        assert(walk_done(cells@, w, ants@, res_before, a, b));
                        assert(forall|q: (i32, i32)| res_before.contains(q) ==> res@.contains(q));
                    }
                }
            }
            j += 1;
        }
        i += 1;
    }
    proof {
        assert forall|q: (i32, i32)| resonant_antinodes(cells@, w).contains(q) implies #[trigger] res@.contains(
            q,
        ) by {
            let (a, b, t) = choose|a: (int, int), b: (int, int), t: int|
                #![trigger paired(cells@, w, a, b), walk(a.0, a.1, b.0 - a.0, b.1 - a.1, t)]
                paired(cells@, w, a, b) && (q.0 as int, q.1 as int) == walk(
                    a.0,
                    a.1,
                    b.0 - a.0,
                    b.1 - a.1,
                    t,
                );
            assert(at(cells@, w, a) != '.');
            let ka = choose|k: int| 0 <= k < ants@.len() && ants@[k].0 == a.0 && ants@[k].1 == a.1;
            assert(at(cells@, w, b) != '.');
            let kb = choose|k: int| 0 <= k < ants@.len() && ants@[k].0 == b.0 && ants@[k].1 == b.1;
            assert(ants@[ka].2 == at(cells@, w, a));
            assert(ants@[kb].2 == at(cells@, w, b));
            if t <= 0 {
                assert(walk_done(cells@, w, ants@, res@, ka, kb));
                assert(walk(a.0, a.1, a.0 - b.0, a.1 - b.1, -t) == (q.0 as int, q.1 as int)) by (nonlinear_arith)
                    requires
                        (q.0 as int, q.1 as int) == walk(a.0, a.1, b.0 - a.0, b.1 - a.1, t),
                ;
            } else {
                assert(walk_done(cells@, w, ants@, res@, kb, ka));
                assert(walk(b.0, b.1, b.0 - a.0, b.1 - a.1, t - 1) == (q.0 as int, q.1 as int)) by (nonlinear_arith)
                    requires
                        (q.0 as int, q.1 as int) == walk(a.0, a.1, b.0 - a.0, b.1 - a.1, t),
                ;
            }
        }
        assert(res@.to_set() =~= resonant_antinodes(cells@, w));
        res@.unique_seq_to_set();
    }
    res.len()
}

} // verus!
