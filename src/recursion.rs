//! Finding a way through a maze by depth-first search.
//!
//! A maze is a list of rows; `'#'` is a wall and `'E'` the exit. A cell is a
//! pair (row, column).
use vstd::prelude::*;
use vstd::std_specs::iter::IteratorSpec;

verus! {

broadcast use vstd::string::group_string_axioms;

/// The characters of each row.
pub open spec fn grid(maze: Seq<String>) -> Seq<Seq<char>> {
    maze.map_values(|row: String| row@)
}

pub open spec fn in_map(g: Seq<Seq<char>>, p: (usize, usize)) -> bool {
    p.0 < g.len() && p.1 < g[p.0 as int].len()
}

/// A cell of the maze that is not a wall.
pub open spec fn is_open(g: Seq<Seq<char>>, p: (usize, usize)) -> bool {
    in_map(g, p) && g[p.0 as int][p.1 as int] != '#'
}

/// Cells one step apart, up, down, left or right.
pub open spec fn adjacent(p: (usize, usize), q: (usize, usize)) -> bool {
    (p.0 == q.0 && (p.1 + 1 == q.1 || q.1 + 1 == p.1)) || (p.1 == q.1 && (p.0 + 1 == q.0 || q.0 + 1
        == p.0))
}

/// `route` leads from `from` to an exit through open cells, one step at a time.
pub open spec fn is_route(g: Seq<Seq<char>>, route: Seq<(usize, usize)>, from: (usize, usize)) -> bool {
    &&& route.len() > 0
    &&& route[0] == from
    &&& g[route.last().0 as int][route.last().1 as int] == 'E'
    &&& forall|i: int| 0 <= i < route.len() ==> is_open(g, #[trigger] route[i])
    &&& forall|i: int| 0 <= i < route.len() - 1 ==> adjacent(#[trigger] route[i], route[i + 1])
}

/// At least the length of every row.
pub open spec fn max_width(g: Seq<Seq<char>>) -> nat
    decreases g.len(),
{
    if g.len() == 0 {
        0
    } else {
        let w = max_width(g.drop_last());
        if g.last().len() > w {
            g.last().len()
        } else {
            w
        }
    }
}

proof fn lemma_max_width(g: Seq<Seq<char>>, r: int)
    requires
        0 <= r < g.len(),
    ensures
        g[r].len() <= max_width(g),
    decreases g.len(),
{
    if r < g.len() - 1 {
        lemma_max_width(g.drop_last(), r);
    }
}

/// A number for each cell of the map, distinct for distinct cells.
pub open spec fn cell_number(g: Seq<Seq<char>>, p: (usize, usize)) -> int {
    p.0 * max_width(g) + p.1
}

/// The numbers of the cells of the map that `seen` holds.
pub open spec fn visited(g: Seq<Seq<char>>, seen: Seq<(usize, usize)>) -> Set<int> {
    Set::new(|n: int| exists|p: (usize, usize)| seen.contains(p) && in_map(g, p) && n == cell_number(g, p))
}

/// The number of cells that the map can have.
pub open spec fn cell_bound(g: Seq<Seq<char>>) -> int {
    (g.len() * max_width(g)) as int
}

proof fn lemma_cell_number(g: Seq<Seq<char>>, p: (usize, usize), q: (usize, usize))
    requires
        in_map(g, p),
        in_map(g, q),
    ensures
        0 <= cell_number(g, p) < cell_bound(g),
        cell_number(g, p) == cell_number(g, q) ==> p == q,
{
    lemma_max_width(g, p.0 as int);
    lemma_max_width(g, q.0 as int);
    let w = max_width(g) as int;
    let (a, b) = (p.0 as int, p.1 as int);
    let (c, d) = (q.0 as int, q.1 as int);
    let n = g.len() as int;
    assert(0 <= a * w + b < n * w) by (nonlinear_arith)
        requires
            0 <= a < n,
            0 <= b < w,
    ;
    assert(a * w + b == c * w + d ==> a == c && b == d) by (nonlinear_arith)
        requires
            0 <= b < w,
            0 <= d < w,
            0 <= a,
            0 <= c,
    ;
}

proof fn lemma_visited_bound(g: Seq<Seq<char>>, seen: Seq<(usize, usize)>)
    ensures
        visited(g, seen).finite(),
        visited(g, seen).len() <= cell_bound(g),
        cell_bound(g) >= 0,
{
    let range = vstd::set_lib::set_int_range(0, cell_bound(g));
    assert(cell_bound(g) >= 0) by (nonlinear_arith)
        requires
            g.len() >= 0,
            max_width(g) >= 0,
    ;
    vstd::set_lib::lemma_int_range(0, cell_bound(g));
    assert forall|n: int| visited(g, seen).contains(n) implies range.contains(n) by {
        let p = choose|p: (usize, usize)| seen.contains(p) && in_map(g, p) && n == cell_number(g, p);
        lemma_cell_number(g, p, p);
    }
    vstd::set_lib::lemma_len_subset(visited(g, seen), range);
}

/// Adding a cell of the map that `seen` lacks adds one number.
proof fn lemma_visited_grows(g: Seq<Seq<char>>, seen: Seq<(usize, usize)>, to: (usize, usize))
    requires
        in_map(g, to),
        !seen.contains(to),
    ensures
        visited(g, seen.push(to)) == visited(g, seen).insert(cell_number(g, to)),
        !visited(g, seen).contains(cell_number(g, to)),
{
    let a = visited(g, seen.push(to));
    let b = visited(g, seen).insert(cell_number(g, to));
    assert forall|n: int| a.contains(n) <==> b.contains(n) by {
        if a.contains(n) {
            let p = choose|p: (usize, usize)|
                seen.push(to).contains(p) && in_map(g, p) && n == cell_number(g, p);
            if p != to {
                let j = choose|j: int| 0 <= j < seen.push(to).len() && seen.push(to)[j] == p;
                assert(seen[j] == p);
            }
        }
        if b.contains(n) {
            if n == cell_number(g, to) {
                assert(seen.push(to)[seen.len() as int] == to);
            } else {
                let p = choose|p: (usize, usize)| seen.contains(p) && in_map(g, p) && n == cell_number(g, p);
                let j = choose|j: int| 0 <= j < seen.len() && seen[j] == p;
                assert(seen.push(to)[j] == p);
            }
        }
    }
    assert(a =~= b);
    if visited(g, seen).contains(cell_number(g, to)) {
        let p = choose|p: (usize, usize)|
            seen.contains(p) && in_map(g, p) && cell_number(g, to) == cell_number(g, p);
        lemma_cell_number(g, p, to);
    }
}

/// A longer list of seen cells visits at least the same cells.
proof fn lemma_visited_mono(g: Seq<Seq<char>>, a: Seq<(usize, usize)>, b: Seq<(usize, usize)>)
    requires
        a == b.subrange(0, a.len() as int),
        a.len() <= b.len(),
    ensures
        visited(g, a).len() <= visited(g, b).len(),
{
    lemma_visited_bound(g, b);
    assert forall|n: int| visited(g, a).contains(n) implies visited(g, b).contains(n) by {
        let p = choose|p: (usize, usize)| a.contains(p) && in_map(g, p) && n == cell_number(g, p);
        let j = choose|j: int| 0 <= j < a.len() && a[j] == p;
        assert(b[j] == p);
    }
    vstd::set_lib::lemma_len_subset(visited(g, a), visited(g, b));
}

/// The character at position `i` of `s`, read by walking its characters.
fn char_at(s: &str, i: usize) -> (r: Option<char>)
    ensures
        r == (if i < s@.len() { Some(s@[i as int]) } else { None }),
{
    let mut chars = s.chars();
    let mut k: usize = 0;
    loop
        invariant
            k <= i,
            k <= s@.len(),
            chars.remaining() == s@.subrange(k as int, s@.len() as int),
        decreases s@.len() - k,
    {
        match chars.next() {
            None => {
                return None;
            },
            Some(ch) => {
                if k == i {
                    return Some(ch);
                }
                k = k + 1;
            },
        }
    }
}

/// Whether `seen` holds `cell`.
fn holds_cell(seen: &Vec<(usize, usize)>, cell: (usize, usize)) -> (r: bool)
    ensures
        r == seen@.contains(cell),
{
    let mut i: usize = 0;
    while i < seen.len()
        invariant
            i <= seen.len(),
            forall|j: int| 0 <= j < i ==> seen@[j] != cell,
        decreases seen.len() - i,
    {
        let p = seen[i];
        if p.0 == cell.0 && p.1 == cell.1 {
            return true;
        }
        i = i + 1;
    }
    false
}

/// The cell one step from `to` in direction `d` (down, up, right, left).
pub open spec fn step(to: (usize, usize), d: usize) -> Option<(usize, usize)> {
    if d == 0 {
        if to.0 < usize::MAX { Some(((to.0 + 1) as usize, to.1)) } else { None }
    } else if d == 1 {
        if to.0 > 0 { Some(((to.0 - 1) as usize, to.1)) } else { None }
    } else if d == 2 {
        if to.1 < usize::MAX { Some((to.0, (to.1 + 1) as usize)) } else { None }
    } else {
        if to.1 > 0 { Some((to.0, (to.1 - 1) as usize)) } else { None }
    }
}

/// Every cell adjacent to `to` is one of its four steps.
proof fn lemma_steps_cover(to: (usize, usize), q: (usize, usize))
    requires
        adjacent(to, q),
    ensures
        exists|d: usize| d < 4 && #[trigger] step(to, d) == Some(q),
{
    if q.0 == to.0 + 1 {
        assert(step(to, 0) == Some(q));
    } else if to.0 == q.0 + 1 {
        assert(step(to, 1) == Some(q));
    } else if q.1 == to.1 + 1 {
        assert(step(to, 2) == Some(q));
    } else {
        assert(step(to, 3) == Some(q));
    }
}

/// Every cell in `after` but not in `before` is open and no exit, and each
/// open cell next to it is in `after`.
pub open spec fn closed_beyond(
    g: Seq<Seq<char>>,
    before: Seq<(usize, usize)>,
    after: Seq<(usize, usize)>,
) -> bool {
    forall|c: (usize, usize)|
        #[trigger] after.contains(c) && !before.contains(c) ==> is_open(g, c) && g[c.0 as int][c.1 as int]
            != 'E' && forall|q: (usize, usize)|
            adjacent(c, q) && is_open(g, q) ==> #[trigger] after.contains(q)
}

/// No cell of `route` is in `s`.
pub open spec fn avoids(route: Seq<(usize, usize)>, s: Seq<(usize, usize)>) -> bool {
    forall|i: int| 0 <= i < route.len() ==> !s.contains(#[trigger] route[i])
}

proof fn lemma_route_blocked(
    g: Seq<Seq<char>>,
    before: Seq<(usize, usize)>,
    after: Seq<(usize, usize)>,
    route: Seq<(usize, usize)>,
    k: int,
)
    requires
        closed_beyond(g, before, after),
        route.len() > 0,
        after.contains(route[0]),
        avoids(route, before),
        forall|i: int| 0 <= i < route.len() ==> is_open(g, #[trigger] route[i]),
        forall|i: int| 0 <= i < route.len() - 1 ==> adjacent(#[trigger] route[i], route[i + 1]),
        0 <= k < route.len(),
    ensures
        after.contains(route[k]),
        g[route[k].0 as int][route[k].1 as int] != 'E',
    decreases k,
{
    assert(!before.contains(route[k]));
    if k > 0 {
        lemma_route_blocked(g, before, after, route, k - 1);
        assert(adjacent(route[k - 1], route[k]));
        assert(!before.contains(route[k - 1]));
        assert(is_open(g, route[k]));
    }
}

/// Where the search from `to` has failed, every route from `to` passes
/// through a cell seen beforehand.
proof fn lemma_no_route(
    g: Seq<Seq<char>>,
    before: Seq<(usize, usize)>,
    after: Seq<(usize, usize)>,
    to: (usize, usize),
)
    requires
        closed_beyond(g, before, after),
        is_open(g, to) && !before.contains(to) ==> after.contains(to),
    ensures
        forall|route: Seq<(usize, usize)>| #[trigger] is_route(g, route, to) ==> !avoids(route, before),
{
    assert forall|route: Seq<(usize, usize)>| #[trigger] is_route(g, route, to) implies !avoids(
        route,
        before,
    ) by {
        if avoids(route, before) {
            assert(is_open(g, route[0]));
            assert(!before.contains(route[0]));
            lemma_route_blocked(g, before, after, route, route.len() - 1);
        }
    }
}

/// A list that extends `a` holds all that `a` holds.
proof fn lemma_prefix_contains(a: Seq<(usize, usize)>, b: Seq<(usize, usize)>)
    requires
        a.len() <= b.len(),
        a == b.subrange(0, a.len() as int),
    ensures
        forall|c: (usize, usize)| #[trigger] a.contains(c) ==> b.contains(c),
{
    assert forall|c: (usize, usize)| #[trigger] a.contains(c) implies b.contains(c) by {
        let j = choose|j: int| 0 <= j < a.len() && a[j] == c;
        assert(b[j] == c);
    }
}

/// The cell one step from `to` in direction `d`: down, up, right, left for
/// `d` from 0 to 3; `None` where that step leaves the range of indices.
fn neighbour(to: (usize, usize), d: usize) -> (r: Option<(usize, usize)>)
    requires
        d < 4,
    ensures
        r == step(to, d),
        r matches Some(q) ==> adjacent(to, q),
{
    if d == 0 {
        if to.0 < usize::MAX {
            Some((to.0 + 1, to.1))
        } else {
            None
        }
    } else if d == 1 {
        if to.0 > 0 {
            Some((to.0 - 1, to.1))
        } else {
            None
        }
    } else if d == 2 {
        if to.1 < usize::MAX {
            Some((to.0, to.1 + 1))
        } else {
            None
        }
    } else {
        if to.1 > 0 {
            Some((to.0, to.1 - 1))
        } else {
            None
        }
    }
}

/// Searches depth first for a way from `to` to an exit, trying the
/// neighbours down, up, right, left in turn and never entering a cell that
/// `seen` holds. On success the way, starting at `to`, is added to `path`;
/// otherwise `path` is left as it was. Every cell entered is added to `seen`.
pub fn walk_to(
    maze: &Vec<String>,
    to: (usize, usize),
    seen: &mut Vec<(usize, usize)>,
    path: &mut Vec<(usize, usize)>,
) -> (r: bool)
    ensures
        old(seen)@ == final(seen)@.subrange(0, old(seen)@.len() as int),
        old(seen)@.len() <= final(seen)@.len(),
        r ==> exists|route: Seq<(usize, usize)>|
            is_route(grid(maze@), route, to) && final(path)@ == old(path)@ + route,
        !r ==> final(path)@ == old(path)@,
        !r ==> closed_beyond(grid(maze@), old(seen)@, final(seen)@),
        !r ==> (is_open(grid(maze@), to) && !old(seen)@.contains(to) ==> final(seen)@.contains(to)),
        !r ==> forall|route: Seq<(usize, usize)>|
            #[trigger] is_route(grid(maze@), route, to) ==> !avoids(route, old(seen)@),
    decreases cell_bound(grid(maze@)) - visited(grid(maze@), old(seen)@).len(),
{
    let ghost g = grid(maze@);
    // off the map
    if to.0 >= maze.len() {
        proof {
            lemma_no_route(g, seen@, seen@, to);
        }
        return false;
    }
    let cell = char_at(maze[to.0].as_str(), to.1);
    let ch = match cell {
        None => {
            proof {
            lemma_no_route(g, seen@, seen@, to);
        }
        return false;
        },
        Some(ch) => ch,
    };
    // a wall
    if ch == '#' {
        proof {
            lemma_no_route(g, seen@, seen@, to);
        }
        return false;
    }
    // already seen
    if holds_cell(seen, to) {
        proof {
            lemma_no_route(g, seen@, seen@, to);
        }
        return false;
    }
    // the exit
    if ch == 'E' {
        path.push(to);
        proof {
            let route = seq![to];
            assert(is_route(g, route, to));
            assert(path@ == old(path)@ + route);
        }
        return true;
    }
    proof {
        lemma_visited_grows(g, seen@, to);
        lemma_visited_bound(g, seen@);
        lemma_visited_bound(g, seen@.push(to));
    }
    seen.push(to);
    path.push(to);
    let mut d: usize = 0;
    while d < 4
        invariant
            g == grid(maze@),
            is_open(g, to),
            g[to.0 as int][to.1 as int] != 'E',
            old(seen)@.push(to) == seen@.subrange(0, old(seen)@.len() + 1 as int),
            old(seen)@.len() + 1 <= seen@.len(),
            visited(g, old(seen)@).len() < visited(g, old(seen)@.push(to)).len(),
            path@ == old(path)@.push(to),
            d <= 4,
            forall|dd: usize|
                dd < d && #[trigger] step(to, dd) is Some && is_open(g, step(to, dd)->0) ==> seen@.contains(
                    step(to, dd)->0,
                ),
            closed_beyond(g, old(seen)@.push(to), seen@),
        decreases 4 - d,
    {
        if let Some(next) = neighbour(to, d) {
            proof {
                lemma_visited_mono(g, old(seen)@.push(to), seen@);
                lemma_visited_bound(g, seen@);
            }
            let ghost seen_before = seen@;
            let ghost path_before = path@;
            if walk_to(maze, next, seen, path) {
                proof {
                    let route = choose|route: Seq<(usize, usize)>|
                        is_route(g, route, next) && path@ == path_before + route;
                    let full = seq![to] + route;
                    assert forall|i: int| 0 <= i < full.len() implies is_open(g, #[trigger] full[i]) by {
                        if i > 0 {
                            assert(full[i] == route[i - 1]);
                        }
                    }
                    assert forall|i: int| 0 <= i < full.len() - 1 implies adjacent(
                        #[trigger] full[i],
                        full[i + 1],
                    ) by {
                        if i > 0 {
                            assert(full[i] == route[i - 1]);
                        }
                    }
                    assert(full.last() == route.last());
                    assert(is_route(g, full, to));
                    assert(path@ =~= old(path)@ + full);
                    assert(seen@.subrange(0, old(seen)@.len() as int) =~= old(seen)@) by {
                        assert(seen_before.subrange(0, old(seen)@.len() as int) =~= old(seen)@) by {
                            assert(seen_before.subrange(0, old(seen)@.len() + 1 as int) =~= old(seen)@.push(to));
                        }
                        assert(seen@.subrange(0, seen_before.len() as int) == seen_before);
                    }
                }
                return true;
            }
            proof {
                assert(seen@.subrange(0, old(seen)@.len() + 1 as int) =~= old(seen)@.push(to)) by {
                    assert(seen@.subrange(0, seen_before.len() as int) == seen_before);
                    assert(seen_before.subrange(0, old(seen)@.len() + 1 as int) == old(seen)@.push(to));
                }
                lemma_prefix_contains(seen_before, seen@);
                let marked = old(seen)@.push(to);
                assert forall|dd: usize|
                    dd < d + 1 && #[trigger] step(to, dd) is Some && is_open(g, step(to, dd)->0)
                        implies seen@.contains(step(to, dd)->0) by {
                    if dd < d {
                        assert(seen_before.contains(step(to, dd)->0));
                    }
                }
                assert forall|c: (usize, usize)| #[trigger] seen@.contains(c) && !marked.contains(c) implies is_open(
                    g,
                    c,
                ) && g[c.0 as int][c.1 as int] != 'E' && forall|q: (usize, usize)|
                    adjacent(c, q) && is_open(g, q) ==> #[trigger] seen@.contains(q) by {
                    if seen_before.contains(c) {
                        assert forall|q: (usize, usize)| adjacent(c, q) && is_open(g, q) implies #[trigger] seen@.contains(
                            q,
                        ) by {
                            assert(seen_before.contains(q));
                        }
                    }
                }
            }
        }
        d = d + 1;
    }
    path.pop();
    proof {
        assert(path@ =~= old(path)@);
        assert(seen@.subrange(0, old(seen)@.len() as int) =~= old(seen)@) by {
            assert(seen@.subrange(0, old(seen)@.len() + 1 as int) == old(seen)@.push(to));
        }
        let marked = old(seen)@.push(to);
        lemma_prefix_contains(marked, seen@);
        assert(marked[old(seen)@.len() as int] == to);
        assert(seen@.contains(to));
        assert forall|c: (usize, usize)| #[trigger] seen@.contains(c) && !old(seen)@.contains(c) implies is_open(
            g,
            c,
        ) && g[c.0 as int][c.1 as int] != 'E' && forall|q: (usize, usize)|
            adjacent(c, q) && is_open(g, q) ==> #[trigger] seen@.contains(q) by {
            if c == to {
                assert forall|q: (usize, usize)| adjacent(c, q) && is_open(g, q) implies #[trigger] seen@.contains(
                    q,
                ) by {
                    lemma_steps_cover(to, q);
                    let dd = choose|dd: usize| dd < 4 && #[trigger] step(to, dd) == Some(q);
                    assert(step(to, dd) is Some);
                }
            } else {
                assert(!marked.contains(c)) by {
                    if marked.contains(c) {
                        let j = choose|j: int| 0 <= j < marked.len() && marked[j] == c;
                        if j < old(seen)@.len() {
                            assert(old(seen)@[j] == c);
                        }
                    }
                }
            }
        }
        lemma_no_route(g, old(seen)@, seen@, to);
    }
    false
}

} // verus!
