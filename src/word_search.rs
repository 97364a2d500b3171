use vstd::prelude::*;

verus! {

/// True when the position `(x, y)` lies inside a grid of `height` rows and `width` columns.
pub open spec fn in_bounds(x: int, y: int, width: int, height: int) -> bool {
    0 <= x < height && 0 <= y < width
}

/// Whether row `x`, column `y` lies inside a grid of `height` rows and `width` columns.
pub fn bound_check(x: i32, y: i32, width: i32, height: i32) -> (r: bool)
    ensures
        r == in_bounds(x as int, y as int, width as int, height as int),
{
    x >= 0 && x < height && y >= 0 && y < width
}

/// A letter grid: at least one row, every row as long as the first, and sizes that fit in
/// an `i32`.
pub open spec fn grid_ok(map: Seq<Vec<char>>) -> bool {
    &&& 0 < map.len() <= i32::MAX
    &&& map[0].len() <= i32::MAX
    &&& forall|i: int| 0 <= i < map.len() ==> #[trigger] map[i].len() == map[0].len()
}

/// The cell at row `x`, column `y` is inside `map` and holds `c`.
pub open spec fn holds_at(map: Seq<Vec<char>>, x: int, y: int, c: char) -> bool {
    in_bounds(x, y, map[0].len() as int, map.len() as int) && map[x]@[y] == c
}

/// Walking from `(x, y)` in steps of `(dx, dy)`, the cells after the start spell `pattern`.
pub open spec fn spells(
    map: Seq<Vec<char>>,
    x: int,
    y: int,
    dx: int,
    dy: int,
    pattern: Seq<char>,
) -> bool {
    forall|k: int|
        0 <= k < pattern.len() ==> holds_at(map, x + (k + 1) * dx, y + (k + 1) * dy, #[trigger] pattern[k])
}

/// 1 when `b` holds, else 0.
pub open spec fn one_if(b: bool) -> int {
    if b {
        1
    } else {
        0
    }
}

/// In how many of the directions down, right, up-right and down-right the cells after
/// `(x, y)` spell `pattern`.
pub open spec fn directions_spelling(map: Seq<Vec<char>>, x: int, y: int, pattern: Seq<char>) -> int {
    one_if(spells(map, x, y, 0, 1, pattern)) + one_if(spells(map, x, y, 1, 0, pattern)) + one_if(
        spells(map, x, y, 1, -1, pattern),
    ) + one_if(spells(map, x, y, 1, 1, pattern))
}

/// How many of the four ways to lay an `M` and an `S` on opposite diagonal neighbours of
/// `(x, y)` the grid shows.
pub open spec fn diagonal_pairs(map: Seq<Vec<char>>, x: int, y: int) -> int {
    one_if(holds_at(map, x - 1, y - 1, 'M') && holds_at(map, x + 1, y + 1, 'S')) + one_if(
        holds_at(map, x + 1, y - 1, 'M') && holds_at(map, x - 1, y + 1, 'S'),
    ) + one_if(holds_at(map, x + 1, y + 1, 'M') && holds_at(map, x - 1, y - 1, 'S')) + one_if(
        holds_at(map, x - 1, y + 1, 'M') && holds_at(map, x + 1, y - 1, 'S'),
    )
}

/// Whether the cells after `(x, y)`, walking in steps of `(dx, dy)`, spell `pattern`.
fn spells_along(map: &[Vec<char>], x: i32, y: i32, dx: i32, dy: i32, pattern: &[char]) -> (r: bool)
    requires
        grid_ok(map@),
        0 <= x,
        0 <= y,
        x + pattern@.len() < i32::MAX,
        y + pattern@.len() < i32::MAX,
        -1 <= dx <= 1,
        -1 <= dy <= 1,
    ensures
        r == spells(map@, x as int, y as int, dx as int, dy as int, pattern@),
{
    let height = map.len() as i32;
    let width = map[0].len() as i32;
    let mut nx = x;
    let mut ny = y;
    let mut k: usize = 0;
    while k < pattern.len()
        invariant
            grid_ok(map@),
            height == map@.len(),
            width == map@[0].len(),
            -1 <= dx <= 1,
            -1 <= dy <= 1,
            k <= pattern.len(),
            0 <= x,
            0 <= y,
            x + pattern@.len() < i32::MAX,
            y + pattern@.len() < i32::MAX,
            nx == x + k * dx,
            ny == y + k * dy,
            x - k <= nx <= x + k,
            y - k <= ny <= y + k,
            forall|m: int|
                0 <= m < k ==> holds_at(map@, x + (m + 1) * dx, y + (m + 1) * dy, #[trigger] pattern@[m]),
        decreases pattern.len() - k,
    {
        assert(nx + dx == x + (k + 1) * dx && ny + dy == y + (k + 1) * dy) by (nonlinear_arith)
            requires
                nx == x + k * dx,
                ny == y + k * dy,
        ;
        nx = nx + dx;
        ny = ny + dy;
        if !bound_check(nx, ny, width, height) {
            assert(!holds_at(map@, x + (k + 1) * dx, y + (k + 1) * dy, pattern@[k as int]));
            return false;
        }
        assert(map@[nx as int].len() == map@[0].len());
        if map[nx as usize][ny as usize] != pattern[k] {
            assert(!holds_at(map@, x + (k + 1) * dx, y + (k + 1) * dy, pattern@[k as int]));
            return false;
        }
        k += 1;
    }
    true
}

/// In how many of the directions down, right, up-right and down-right the cells after `start`
/// spell `pattern`.
pub fn find_pattern(start: &(usize, usize), map: &[Vec<char>], pattern: &[char]) -> (r: i32)
    requires
        grid_ok(map@),
        start.0 + pattern@.len() < i32::MAX,
        start.1 + pattern@.len() < i32::MAX,
    ensures
        r == directions_spelling(map@, start.0 as int, start.1 as int, pattern@),
{
    let x = start.0 as i32;
    let y = start.1 as i32;
    let mut n: i32 = 0;
    if spells_along(map, x, y, 0, 1, pattern) {
        n += 1;
    }
    if spells_along(map, x, y, 1, 0, pattern) {
        n += 1;
    }
    if spells_along(map, x, y, 1, -1, pattern) {
        n += 1;
    }
    if spells_along(map, x, y, 1, 1, pattern) {
        n += 1;
    }
    n
}

/// Whether row `x`, column `y` is inside `map` and holds `c`.
fn letter_at(map: &[Vec<char>], x: i32, y: i32, c: char) -> (r: bool)
    requires
        grid_ok(map@),
    ensures
        r == holds_at(map@, x as int, y as int, c),
{
    if !bound_check(x, y, map[0].len() as i32, map.len() as i32) {
        return false;
    }
    assert(map@[x as int].len() == map@[0].len());
    map[x as usize][y as usize] == c
}

/// Whether `start` is the middle `A` of two diagonal `MAS`, in either direction, that cross
/// there: 1 if so, else 0.
pub fn find_pattern2(start: &(usize, usize), map: &[Vec<char>]) -> (r: i32)
    requires
        grid_ok(map@),
        start.0 < i32::MAX,
        start.1 < i32::MAX,
    ensures
        r == diagonal_pairs(map@, start.0 as int, start.1 as int) / 2,
{
    let x = start.0 as i32;
    let y = start.1 as i32;
    let mut n: i32 = 0;
    if letter_at(map, x - 1, y - 1, 'M') && letter_at(map, x + 1, y + 1, 'S') {
        n += 1;
    }
    if letter_at(map, x + 1, y - 1, 'M') && letter_at(map, x - 1, y + 1, 'S') {
        n += 1;
    }
    if letter_at(map, x + 1, y + 1, 'M') && letter_at(map, x - 1, y - 1, 'S') {
        n += 1;
    }
    if letter_at(map, x - 1, y + 1, 'M') && letter_at(map, x + 1, y - 1, 'S') {
        n += 1;
    }
    n / 2
}

/// The sum of `score(i, j)` over the first `n` columns `j` of row `i`.
pub open spec fn row_total(i: int, n: int, score: spec_fn(int, int) -> int) -> int
    decreases n,
{
    if n <= 0 {
        0
    } else {
        row_total(i, n - 1, score) + score(i, n - 1)
    }
}

/// The sum of `score` over every cell of the first `n` rows, each `w` columns wide.
pub open spec fn grid_total(n: int, w: int, score: spec_fn(int, int) -> int) -> int
    decreases n,
{
    if n <= 0 {
        0
    } else {
        grid_total(n - 1, w, score) + row_total(n - 1, w, score)
    }
}

/// What the cell at `(i, j)` adds to the count of `XMAS`: an `X` starting `XMAS`, or an `S`
/// starting `SAMX`, in one of the four directions that reach every line once.
pub open spec fn xmas_score(map: Seq<Vec<char>>, i: int, j: int) -> int {
    (if map[i]@[j] == 'X' {
        directions_spelling(map, i, j, seq!['M', 'A', 'S'])
    } else {
        0
    }) + (if map[i]@[j] == 'S' {
        directions_spelling(map, i, j, seq!['A', 'M', 'X'])
    } else {
        0
    })
}

/// What the cell at `(i, j)` adds to the count of crossed `MAS`: 1 for an `A` off the border
/// where two of them cross, else 0.
pub open spec fn x_mas_score(map: Seq<Vec<char>>, i: int, j: int) -> int {
    if map[i]@[j] == 'A' && i != 0 && i != map.len() - 1 && j != 0 && j != map[0].len() - 1 {
        diagonal_pairs(map, i, j) / 2
    } else {
        0
    }
}

/// Walks every cell of `map` and adds what `part` says it scores (`xmas_score` for part 1,
/// `x_mas_score` for part 2).
fn grid_sum(map: &Vec<Vec<char>>, part: u8) -> (r: i32)
    requires
        grid_ok(map@),
        map@.len() * map@[0].len() <= 0x1000_0000,
        part == 1 || part == 2,
    ensures
        r == grid_total(
            map@.len() as int,
            map@[0].len() as int,
            |i: int, j: int|
                if part == 1 {
                    xmas_score(map@, i, j)
                } else {
                    x_mas_score(map@, i, j)
                },
        ),
{
    let ghost score = |i: int, j: int|
        if part == 1 {
            xmas_score(map@, i, j)
        } else {
            x_mas_score(map@, i, j)
        };
    let mas: Vec<char> = vec!['M', 'A', 'S'];
    let samx: Vec<char> = vec!['A', 'M', 'X'];
    assert(mas@ == seq!['M', 'A', 'S']);
    assert(samx@ == seq!['A', 'M', 'X']);
    let height = map.len();
    let width = map[0].len();
    let mut sum: i32 = 0;
    let mut i: usize = 0;
    while i < height
        invariant
            grid_ok(map@),
            height == map@.len(),
            width == map@[0].len(),
            height * width <= 0x1000_0000,
            part == 1 || part == 2,
            mas@ == seq!['M', 'A', 'S'],
            samx@ == seq!['A', 'M', 'X'],
            i <= height,
            score == (|i: int, j: int|
                if part == 1 {
                    xmas_score(map@, i, j)
                } else {
                    x_mas_score(map@, i, j)
                }),
            sum == grid_total(i as int, width as int, score),
            0 <= sum <= 4 * (i * width),
        decreases height - i,
    {
        let mut j: usize = 0;
        assert(map@[i as int].len() == width);
        while j < width
            invariant
                grid_ok(map@),
                height == map@.len(),
                width == map@[0].len(),
                map@[i as int].len() == width,
                height * width <= 0x1000_0000,
                part == 1 || part == 2,
                mas@ == seq!['M', 'A', 'S'],
                samx@ == seq!['A', 'M', 'X'],
                i < height,
                j <= width,
                score == (|i: int, j: int|
                        if part == 1 {
                            xmas_score(map@, i, j)
                        } else {
                            x_mas_score(map@, i, j)
                        }),
                sum == grid_total(i as int, width as int, score) + row_total(i as int, j as int, score),
                0 <= sum <= 4 * (i * width + j),
            decreases width - j,
        {
            assert(i * width + j + 1 <= height * width) by (nonlinear_arith)
                requires
                    i < height,
                    j < width,
            ;
            assert(i < 0x1000_0000 && j < 0x1000_0000) by (nonlinear_arith)
                requires
                    i < height,
                    j < width,
                    height * width <= 0x1000_0000,
            ;
            let start = (i, j);
            let c = map[i][j];
            let mut add: i32 = 0;
            if part == 1 {
                if c == 'X' {
                    add = find_pattern(&start, map.as_slice(), mas.as_slice());
                }
                if c == 'S' {
                    add = add + find_pattern(&start, map.as_slice(), samx.as_slice());
                }
            } else if c == 'A' && i != 0 && i != height - 1 && j != 0 && j != width - 1 {
                add = find_pattern2(&start, map.as_slice());
            }
            assert(score(i as int, j as int) == if part == 1 {
                xmas_score(map@, i as int, j as int)
            } else {
                x_mas_score(map@, i as int, j as int)
            });
            assert(add == score(i as int, j as int));
            assert(0 <= add <= 4);
            sum = sum + add;
            j += 1;
        }
        assert(i * width + width == (i + 1) * width) by (nonlinear_arith);
        i += 1;
    }
    sum
}

/// How many times `XMAS` appears in `map`, across, down or diagonally, forwards or backwards.
pub fn part1(map: &Vec<Vec<char>>) -> (r: i32)
    requires
        grid_ok(map@),
        map@.len() * map@[0].len() <= 0x1000_0000,
    ensures
        r == grid_total(
            map@.len() as int,
            map@[0].len() as int,
            |i: int, j: int| xmas_score(map@, i, j),
        ),
{
    let r = grid_sum(map, 1);
    assert((|i: int, j: int|
        if 1u8 == 1 {
            xmas_score(map@, i, j)
        } else {
            x_mas_score(map@, i, j)
        }) == (|i: int, j: int| xmas_score(map@, i, j)));
    r
}

/// How many times two `MAS` cross in the shape of an X in `map`.
pub fn part2(map: &Vec<Vec<char>>) -> (r: i32)
    requires
        grid_ok(map@),
        map@.len() * map@[0].len() <= 0x1000_0000,
    ensures
        r == grid_total(
            map@.len() as int,
            map@[0].len() as int,
            |i: int, j: int| x_mas_score(map@, i, j),
        ),
{
    let r = grid_sum(map, 2);
    assert((|i: int, j: int|
        if 2u8 == 1 {
            xmas_score(map@, i, j)
        } else {
            x_mas_score(map@, i, j)
        }) == (|i: int, j: int| x_mas_score(map@, i, j)));
    r
}

} // verus!
