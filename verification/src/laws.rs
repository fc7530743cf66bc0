//! What holds of every carved grid and of every generated maze, whatever
//! was drawn.

use vstd::prelude::*;
use crate::grid::{Element, Grid};
use crate::model::{
    carve_around, carve_from, direction, draw_at, exit, generated, lemma_carve_around_opens,
    lemma_carve_from_opens,
};

verus! {

/// The passage at `(x, y)` has its place in the lattice of corridors: it is
/// a room, with both coordinates even, or it is a door, with one coordinate
/// odd, and the two rooms that it lies between are open.
pub open spec fn in_corridor(g: Grid, x: int, y: int) -> bool {
    ||| x % 2 == 0 && y % 2 == 0
    ||| x % 2 != 0 && y % 2 == 0 && g.at(x - 1, y) == Element::Passage && g.at(x + 1, y)
        == Element::Passage
    ||| x % 2 == 0 && y % 2 != 0 && g.at(x, y - 1) == Element::Passage && g.at(x, y + 1)
        == Element::Passage
}

/// Every passage inside the border has its place in the lattice. In
/// particular the cells with two odd coordinates are walls, so that no two
/// corridors run side by side without a wall between them.
pub open spec fn corridors(g: Grid) -> bool {
    forall|x: int, y: int|
        #![trigger g.at(x, y)]
        g.interior(x, y) && g.at(x, y) == Element::Passage ==> in_corridor(g, x, y)
}

/// Every passage inside the border has its place in the lattice, but
/// perhaps the exit.
pub open spec fn corridors_but_for_exit(g: Grid) -> bool {
    forall|x: int, y: int|
        #![trigger g.at(x, y)]
        g.interior(x, y) && (x, y) != exit(g.width, g.height) && g.at(x, y) == Element::Passage
            ==> in_corridor(g, x, y)
}

/// From a cell inside the border of a grid whose border is open, the probes
/// of carving never leave the grid: the neighbour in any direction is a cell
/// of the grid, and if it is a wall it lies inside the border too, so that
/// the cell beyond it is a cell of the grid as well. The same holds of the
/// cell beyond, which is where carving goes on.
pub proof fn lemma_probes_stay_inside(g: Grid, x: int, y: int, k: int)
    requires
        g.well_formed(),
        g.border_open(),
        g.interior(x, y),
        0 <= k < 4,
    ensures
        ({
            let (dx, dy) = direction(k);
            let (x2, y2) = (x + dx, y + dy);
            let (nx, ny) = (x2 + dx, y2 + dy);
            &&& g.contains(x2, y2)
            &&& g.is_wall(x2, y2) ==> g.interior(x2, y2) && g.contains(nx, ny)
            &&& g.is_wall(x2, y2) && g.is_wall(nx, ny) ==> g.interior(nx, ny)
        }),
{
    let (dx, dy) = direction(k);
    let (x2, y2) = (x + dx, y + dy);
    let (nx, ny) = (x2 + dx, y2 + dy);
    if g.is_wall(x2, y2) {
        assert(!g.on_border(x2, y2));
        if g.is_wall(nx, ny) {
            assert(!g.on_border(nx, ny));
        }
    }
}

/// Opening cells keeps a passage in its place in the lattice.
proof fn lemma_in_corridor_kept(earlier: Grid, later: Grid, x: int, y: int)
    requires
        later.opened_from(earlier),
        earlier.interior(x, y),
        in_corridor(earlier, x, y),
    ensures
        in_corridor(later, x, y),
{
    assert(earlier.contains(x - 1, y) && earlier.contains(x + 1, y));
    assert(earlier.contains(x, y - 1) && earlier.contains(x, y + 1));
}

/// Carving keeps the border open.
pub proof fn lemma_carve_keeps_border(g: Grid, draws: Seq<usize>, used: nat, x: int, y: int)
    requires
        g.well_formed(),
        g.border_open(),
    ensures
        carve_from(g, draws, used, x, y).grid.border_open(),
{
    lemma_carve_from_opens(g, draws, used, x, y);
    let after = carve_from(g, draws, used, x, y).grid;
    assert forall|bx: int, by: int| #[trigger] after.on_border(bx, by) implies after.at(bx, by)
        == Element::Passage by {
        assert(g.on_border(bx, by));
    }
}

/// Carving from a room keeps the lattice of corridors: if every passage has
/// its place once the room is open, every passage has its place afterwards.
pub proof fn lemma_carve_from_corridors(g: Grid, draws: Seq<usize>, used: nat, x: int, y: int)
    requires
        g.well_formed(),
        g.contains(x, y),
        x % 2 == 0,
        y % 2 == 0,
        corridors(g.open(x, y)),
    ensures
        corridors(carve_from(g, draws, used, x, y).grid),
    decreases g.walls(), 5int,
{
    g.lemma_open_opened_from(x, y);
    lemma_carve_around_corridors(
        g.open(x, y),
        draws,
        used + 1,
        x,
        y,
        draw_at(draws, used as int) % 4,
        0,
    );
}

/// Trying directions around an open room keeps the lattice of corridors.
pub proof fn lemma_carve_around_corridors(
    g: Grid,
    draws: Seq<usize>,
    used: nat,
    x: int,
    y: int,
    first: int,
    i: int,
)
    requires
        g.well_formed(),
        g.contains(x, y),
        g.at(x, y) == Element::Passage,
        x % 2 == 0,
        y % 2 == 0,
        corridors(g),
    ensures
        corridors(carve_around(g, draws, used, x, y, first, i).grid),
    decreases g.walls(), 4 - i,
{
    if 0 <= i < 4 {
        let (dx, dy) = direction((first + i) % 4);
        let (x2, y2) = (x + dx, y + dy);
        let (nx, ny) = (x2 + dx, y2 + dy);
        if g.is_wall(x2, y2) && g.is_wall(nx, ny) {
            let door = g.open(x2, y2);
            let room = door.open(nx, ny);
            g.lemma_open_opened_from(x2, y2);
            g.lemma_open_walls(x2, y2);
            door.lemma_open_opened_from(nx, ny);
            assert forall|cx: int, cy: int|
                #![trigger room.at(cx, cy)]
                room.interior(cx, cy) && room.at(cx, cy) == Element::Passage implies in_corridor(
                room,
                cx,
                cy,
            ) by {
                g.lemma_open(x2, y2, cx, cy);
                door.lemma_open(nx, ny, cx, cy);
                if cx == x2 && cy == y2 {
                    door.lemma_open(nx, ny, x, y);
                    g.lemma_open(x2, y2, x, y);
                } else if cx == nx && cy == ny {
                } else {
                    lemma_in_corridor_kept(g, door, cx, cy);
                    lemma_in_corridor_kept(door, room, cx, cy);
                }
            }
            lemma_carve_from_corridors(door, draws, used, nx, ny);
            lemma_carve_from_opens(door, draws, used, nx, ny);
            let beyond = carve_from(door, draws, used, nx, ny);
            g.lemma_open(x2, y2, x, y);
            lemma_carve_around_corridors(beyond.grid, draws, beyond.used, x, y, first, i + 1);
        } else {
            lemma_carve_around_corridors(g, draws, used, x, y, first, i + 1);
        }
    }
}

/// The draws that `a` holds from position `from_a` up to `until` are the
/// draws that `b` holds from position `from_b` on.
pub open spec fn same_draws(
    a: Seq<usize>,
    from_a: nat,
    until: nat,
    b: Seq<usize>,
    from_b: nat,
) -> bool {
    forall|j: int|
        from_a <= j < until ==> #[trigger] draw_at(a, j) == draw_at(b, j - from_a + from_b)
}

/// Carving depends on the draws it reads and on nothing else in the
/// sequence: where two sequences hold the same draws over the stretch that
/// carving goes through, it ends with the same grid after as many draws.
pub proof fn lemma_carve_from_reads(
    g: Grid,
    a: Seq<usize>,
    from_a: nat,
    b: Seq<usize>,
    from_b: nat,
    x: int,
    y: int,
)
    requires
        g.well_formed(),
        same_draws(a, from_a, carve_from(g, a, from_a, x, y).used, b, from_b),
    ensures
        carve_from(g, b, from_b, x, y).grid == carve_from(g, a, from_a, x, y).grid,
        carve_from(g, b, from_b, x, y).used - from_b == carve_from(g, a, from_a, x, y).used
            - from_a,
    decreases g.walls(), 5int,
{
    g.lemma_open_opened_from(x, y);
    lemma_carve_from_opens(g, a, from_a, x, y);
    assert(draw_at(a, from_a as int) == draw_at(b, from_a - from_a + from_b));
    lemma_carve_around_reads(
        g.open(x, y),
        a,
        from_a + 1,
        b,
        from_b + 1,
        x,
        y,
        draw_at(a, from_a as int) % 4,
        0,
    );
}

/// The same for trying directions around a cell.
pub proof fn lemma_carve_around_reads(
    g: Grid,
    a: Seq<usize>,
    from_a: nat,
    b: Seq<usize>,
    from_b: nat,
    x: int,
    y: int,
    first: int,
    i: int,
)
    requires
        g.well_formed(),
        same_draws(a, from_a, carve_around(g, a, from_a, x, y, first, i).used, b, from_b),
    ensures
        carve_around(g, b, from_b, x, y, first, i).grid == carve_around(
            g,
            a,
            from_a,
            x,
            y,
            first,
            i,
        ).grid,
        carve_around(g, b, from_b, x, y, first, i).used - from_b == carve_around(
            g,
            a,
            from_a,
            x,
            y,
            first,
            i,
        ).used - from_a,
    decreases g.walls(), 4 - i,
{
    if 0 <= i < 4 {
        let (dx, dy) = direction((first + i) % 4);
        let (x2, y2) = (x + dx, y + dy);
        let (nx, ny) = (x2 + dx, y2 + dy);
        if g.is_wall(x2, y2) && g.is_wall(nx, ny) {
            let opened = g.open(x2, y2);
            g.lemma_open_opened_from(x2, y2);
            g.lemma_open_walls(x2, y2);
            lemma_carve_from_opens(opened, a, from_a, nx, ny);
            let beyond = carve_from(opened, a, from_a, nx, ny);
            lemma_carve_around_opens(beyond.grid, a, beyond.used, x, y, first, i + 1);
            lemma_carve_from_reads(opened, a, from_a, b, from_b, nx, ny);
            let beyond_b = carve_from(opened, b, from_b, nx, ny);
            assert forall|j: int| beyond.used <= j < carve_around(
                beyond.grid,
                a,
                beyond.used,
                x,
                y,
                first,
                i + 1,
            ).used implies #[trigger] draw_at(a, j) == draw_at(
                b,
                j - beyond.used + beyond_b.used,
            ) by {
                assert(draw_at(a, j) == draw_at(b, j - from_a + from_b));
            }
            lemma_carve_around_reads(
                beyond.grid,
                a,
                beyond.used,
                b,
                beyond_b.used,
                x,
                y,
                first,
                i + 1,
            );
        } else {
            lemma_carve_around_reads(g, a, from_a, b, from_b, x, y, first, i + 1);
        }
    }
}

/// A generated maze has the size that was asked for and an open border.
pub proof fn lemma_generated_border(width: nat, height: nat, draws: Seq<usize>, start: nat)
    ensures
        generated(width, height, draws, start).grid.width == width,
        generated(width, height, draws, start).grid.height == height,
        generated(width, height, draws, start).grid.well_formed(),
        generated(width, height, draws, start).grid.border_open(),
{
    let fresh = Grid::initial(width, height);
    let carved = carve_from(fresh, draws, start, 2, 2).grid;
    let entered = carved.open(2, 1);
    let maze = entered.open(width - 3, height - 2);
    lemma_carve_from_opens(fresh, draws, start, 2, 2);
    carved.lemma_open_opened_from(2, 1);
    entered.lemma_open_opened_from(width - 3, height - 2);
    assert forall|bx: int, by: int| #[trigger] maze.on_border(bx, by) implies maze.at(bx, by)
        == Element::Passage by {
        Grid::lemma_initial(width, height, bx, by);
        assert(fresh.on_border(bx, by));
    }
}

/// The entrance `(2, 1)` and the exit `(width - 3, height - 2)` of a
/// generated maze are passages.
pub proof fn lemma_generated_openings(width: nat, height: nat, draws: Seq<usize>, start: nat)
    requires
        width >= 3,
        height >= 3,
    ensures
        generated(width, height, draws, start).grid.at(2, 1) == Element::Passage,
        generated(width, height, draws, start).grid.at(width - 3, height - 2)
            == Element::Passage,
{
    let fresh = Grid::initial(width, height);
    let carved = carve_from(fresh, draws, start, 2, 2).grid;
    let entered = carved.open(2, 1);
    lemma_carve_from_opens(fresh, draws, start, 2, 2);
    carved.lemma_open_opened_from(2, 1);
    entered.lemma_open_opened_from(width - 3, height - 2);
}

/// A generated maze depends on the draws that carving read and on nothing
/// else: two sequences that hold the same draws over that stretch give the
/// same maze.
pub proof fn lemma_generated_reads(
    width: nat,
    height: nat,
    a: Seq<usize>,
    from_a: nat,
    b: Seq<usize>,
    from_b: nat,
)
    requires
        same_draws(a, from_a, generated(width, height, a, from_a).used, b, from_b),
    ensures
        generated(width, height, b, from_b).grid == generated(width, height, a, from_a).grid,
        generated(width, height, b, from_b).used - from_b == generated(
            width,
            height,
            a,
            from_a,
        ).used - from_a,
{
    let fresh = Grid::initial(width, height);
    lemma_carve_from_reads(fresh, a, from_a, b, from_b, 2, 2);
}

/// In a generated maze every passage inside the border has its place in the
/// lattice of corridors, but perhaps the exit, which is opened wherever
/// carving went.
pub proof fn lemma_generated_corridors(width: nat, height: nat, draws: Seq<usize>, start: nat)
    ensures
        corridors_but_for_exit(generated(width, height, draws, start).grid),
{
    let fresh = Grid::initial(width, height);
    let carved = carve_from(fresh, draws, start, 2, 2).grid;
    let entered = carved.open(2, 1);
    let maze = entered.open(width - 3, height - 2);
    lemma_carve_from_opens(fresh, draws, start, 2, 2);
    carved.lemma_open_opened_from(2, 1);
    entered.lemma_open_opened_from(width - 3, height - 2);
    if fresh.contains(2, 2) {
        let seeded = fresh.open(2, 2);
        assert forall|cx: int, cy: int|
            #![trigger seeded.at(cx, cy)]
            seeded.interior(cx, cy) && seeded.at(cx, cy) == Element::Passage implies in_corridor(
            seeded,
            cx,
            cy,
        ) by {
            fresh.lemma_open(2, 2, cx, cy);
            Grid::lemma_initial(width, height, cx, cy);
        }
        lemma_carve_from_corridors(fresh, draws, start, 2, 2);
    }
    assert forall|x: int, y: int|
        #![trigger maze.at(x, y)]
        maze.interior(x, y) && (x, y) != exit(maze.width, maze.height) && maze.at(x, y)
            == Element::Passage implies in_corridor(maze, x, y) by {
        entered.lemma_open(width - 3, height - 2, x, y);
        carved.lemma_open(2, 1, x, y);
        if x == 2 && y == 1 {
            Grid::lemma_initial(width, height, 2, 0);
            assert(fresh.on_border(2, 0));
            assert(maze.at(2, 0) == Element::Passage);
            assert(maze.at(2, 2) == Element::Passage);
        } else {
            lemma_in_corridor_kept(carved, entered, x, y);
            lemma_in_corridor_kept(entered, maze, x, y);
        }
    }
}

/// Carving cannot hop from `(x, y)` in direction `k`: the neighbour or the
/// cell beyond it is no wall.
pub open spec fn blocked(g: Grid, x: int, y: int, k: int) -> bool {
    let (dx, dy) = direction(k);
    !(g.is_wall(x + dx, y + dy) && g.is_wall(x + dx + dx, y + dy + dy))
}

/// Carving has nowhere to go from `(x, y)`.
pub open spec fn settled(g: Grid, x: int, y: int) -> bool {
    forall|k: int| 0 <= k < 4 ==> #[trigger] blocked(g, x, y, k)
}

/// Direction `k` is among those that trying directions `i..4` goes through
/// when `first` was drawn.
pub open spec fn still_to_try(first: int, i: int, k: int) -> bool {
    (k - first) % 4 >= i
}

/// Opening cells keeps a direction blocked.
proof fn lemma_blocked_kept(earlier: Grid, later: Grid, x: int, y: int, k: int)
    requires
        later.opened_from(earlier),
        blocked(earlier, x, y, k),
    ensures
        blocked(later, x, y, k),
{
}

/// Opening cells keeps a settled cell settled.
proof fn lemma_settled_kept(earlier: Grid, later: Grid, x: int, y: int)
    requires
        later.opened_from(earlier),
        settled(earlier, x, y),
    ensures
        settled(later, x, y),
{
    assert forall|k: int| 0 <= k < 4 implies #[trigger] blocked(later, x, y, k) by {
        lemma_blocked_kept(earlier, later, x, y, k);
    }
}

/// The rooms that were opened between `before` and `after` are settled in
/// `after`.
pub open spec fn rooms_settled(before: Grid, after: Grid) -> bool {
    forall|rx: int, ry: int|
        #![trigger after.at(rx, ry)]
        before.contains(rx, ry) && rx % 2 == 0 && ry % 2 == 0 && before.at(rx, ry)
            == Element::Wall && after.at(rx, ry) == Element::Passage ==> settled(after, rx, ry)
}

/// Carving goes on until it has nowhere to go: when it ends, no hop is left
/// from the room it started from nor from any room it opened.
pub proof fn lemma_carve_from_settles(g: Grid, draws: Seq<usize>, used: nat, x: int, y: int)
    requires
        g.well_formed(),
        g.contains(x, y),
        x % 2 == 0,
        y % 2 == 0,
    ensures
        settled(carve_from(g, draws, used, x, y).grid, x, y),
        rooms_settled(g, carve_from(g, draws, used, x, y).grid),
    decreases g.walls(), 5int,
{
    let first = draw_at(draws, used as int) % 4;
    let opened = g.open(x, y);
    let after = carve_from(g, draws, used, x, y).grid;
    g.lemma_open_opened_from(x, y);
    lemma_carve_around_settles(opened, draws, used + 1, x, y, first, 0);
    assert forall|k: int| 0 <= k < 4 implies #[trigger] blocked(after, x, y, k) by {
        assert(still_to_try(first, 0, k));
    }
    assert forall|rx: int, ry: int|
        #![trigger after.at(rx, ry)]
        g.contains(rx, ry) && rx % 2 == 0 && ry % 2 == 0 && g.at(rx, ry) == Element::Wall
            && after.at(rx, ry) == Element::Passage implies settled(after, rx, ry) by {
        g.lemma_open(x, y, rx, ry);
    }
}

/// Trying directions around a room leaves no hop in any of them, and none
/// from any room that was opened on the way.
pub proof fn lemma_carve_around_settles(
    g: Grid,
    draws: Seq<usize>,
    used: nat,
    x: int,
    y: int,
    first: int,
    i: int,
)
    requires
        g.well_formed(),
        g.contains(x, y),
        x % 2 == 0,
        y % 2 == 0,
        0 <= first < 4,
        0 <= i <= 4,
    ensures
        rooms_settled(g, carve_around(g, draws, used, x, y, first, i).grid),
        forall|k: int|
            0 <= k < 4 && still_to_try(first, i, k) ==> #[trigger] blocked(
                carve_around(g, draws, used, x, y, first, i).grid,
                x,
                y,
                k,
            ),
    decreases g.walls(), 4 - i,
{
    let after = carve_around(g, draws, used, x, y, first, i).grid;
    if i < 4 {
        let now = (first + i) % 4;
        let (dx, dy) = direction(now);
        let (x2, y2) = (x + dx, y + dy);
        let (nx, ny) = (x2 + dx, y2 + dy);
        lemma_carve_around_opens(g, draws, used, x, y, first, i);
        if g.is_wall(x2, y2) && g.is_wall(nx, ny) {
            let door = g.open(x2, y2);
            g.lemma_open_opened_from(x2, y2);
            g.lemma_open_walls(x2, y2);
            g.lemma_open(x2, y2, nx, ny);
            lemma_carve_from_opens(door, draws, used, nx, ny);
            lemma_carve_from_settles(door, draws, used, nx, ny);
            let beyond = carve_from(door, draws, used, nx, ny);
            lemma_carve_around_opens(beyond.grid, draws, beyond.used, x, y, first, i + 1);
            lemma_carve_around_settles(beyond.grid, draws, beyond.used, x, y, first, i + 1);
            assert forall|rx: int, ry: int|
                #![trigger after.at(rx, ry)]
                g.contains(rx, ry) && rx % 2 == 0 && ry % 2 == 0 && g.at(rx, ry)
                    == Element::Wall && after.at(rx, ry) == Element::Passage implies settled(
                after,
                rx,
                ry,
            ) by {
                g.lemma_open(x2, y2, rx, ry);
                if beyond.grid.at(rx, ry) == Element::Passage {
                    lemma_settled_kept(beyond.grid, after, rx, ry);
                }
            }
            assert(blocked(after, x, y, now)) by {
                g.lemma_open(x2, y2, x2, y2);
                assert(blocked(door, x, y, now));
                lemma_blocked_kept(door, beyond.grid, x, y, now);
                lemma_blocked_kept(beyond.grid, after, x, y, now);
            }
        } else {
            lemma_carve_around_settles(g, draws, used, x, y, first, i + 1);
            assert(blocked(after, x, y, now)) by {
                lemma_blocked_kept(g, after, x, y, now);
            }
        }
        assert forall|k: int| 0 <= k < 4 && still_to_try(first, i, k) implies #[trigger] blocked(
            after,
            x,
            y,
            k,
        ) by {
            if k != now {
                assert(still_to_try(first, i + 1, k));
            }
        }
    }
}

/// What makes carving reach a room: the rooms it opened are settled and
/// every passage has its place in the lattice.
proof fn lemma_room_reached(g: Grid, after: Grid, x: int, y: int)
    requires
        after.opened_from(g),
        g.interior(2, 2),
        after.at(2, 2) == Element::Passage,
        rooms_settled(g, after),
        corridors(after),
        forall|rx: int, ry: int| g.interior(rx, ry) ==> #[trigger] g.at(rx, ry) == Element::Wall,
        g.interior(x, y),
        x % 2 == 0,
        y % 2 == 0,
    ensures
        after.at(x, y) == Element::Passage,
    decreases x + y,
{
    if x == 2 && y == 2 {
    } else if x > 2 {
        lemma_room_reached(g, after, x - 2, y);
        assert(settled(after, x - 2, y));
        assert(blocked(after, x - 2, y, 0));
        if after.at(x, y) != Element::Passage {
            assert(after.at(x - 1, y) == Element::Passage);
            assert(in_corridor(after, x - 1, y));
        }
    } else {
        lemma_room_reached(g, after, x, y - 2);
        assert(settled(after, x, y - 2));
        assert(blocked(after, x, y - 2, 2));
        if after.at(x, y) != Element::Passage {
            assert(after.at(x, y - 1) == Element::Passage);
            assert(in_corridor(after, x, y - 1));
        }
    }
}

/// In a generated maze of odd width and height, carving has reached every
/// room, and so every passage inside the border has its place in the lattice
/// of corridors, the exit too.
pub proof fn lemma_generated_rooms(width: nat, height: nat, draws: Seq<usize>, start: nat)
    requires
        width >= 5,
        height >= 5,
        width % 2 == 1,
        height % 2 == 1,
    ensures
        forall|x: int, y: int|
            #![trigger generated(width, height, draws, start).grid.at(x, y)]
            generated(width, height, draws, start).grid.interior(x, y) && x % 2 == 0 && y % 2 == 0
                ==> generated(width, height, draws, start).grid.at(x, y) == Element::Passage,
        corridors(generated(width, height, draws, start).grid),
{
    let fresh = Grid::initial(width, height);
    let carved = carve_from(fresh, draws, start, 2, 2).grid;
    let entered = carved.open(2, 1);
    let maze = entered.open(width - 3, height - 2);
    lemma_carve_from_opens(fresh, draws, start, 2, 2);
    lemma_carve_from_settles(fresh, draws, start, 2, 2);
    carved.lemma_open_opened_from(2, 1);
    entered.lemma_open_opened_from(width - 3, height - 2);
    lemma_generated_corridors(width, height, draws, start);
    let seeded = fresh.open(2, 2);
    assert forall|cx: int, cy: int|
        #![trigger seeded.at(cx, cy)]
        seeded.interior(cx, cy) && seeded.at(cx, cy) == Element::Passage implies in_corridor(
        seeded,
        cx,
        cy,
    ) by {
        fresh.lemma_open(2, 2, cx, cy);
        Grid::lemma_initial(width, height, cx, cy);
    }
    lemma_carve_from_corridors(fresh, draws, start, 2, 2);
    assert forall|rx: int, ry: int| fresh.interior(rx, ry) implies #[trigger] fresh.at(rx, ry)
        == Element::Wall by {
        Grid::lemma_initial(width, height, rx, ry);
    }
    assert forall|x: int, y: int|
        #![trigger maze.at(x, y)]
        maze.interior(x, y) && x % 2 == 0 && y % 2 == 0 implies maze.at(x, y)
        == Element::Passage by {
        lemma_room_reached(fresh, carved, x, y);
    }
    assert forall|x: int, y: int|
        #![trigger maze.at(x, y)]
        maze.interior(x, y) && maze.at(x, y) == Element::Passage implies in_corridor(
        maze,
        x,
        y,
    ) by {
        if x == width - 3 && y == height - 2 {
            Grid::lemma_initial(width, height, x, y + 1);
            assert(fresh.on_border(x, y + 1));
            assert(maze.at(x, y - 1) == Element::Passage);
            assert(maze.at(x, y + 1) == Element::Passage);
        }
    }
}

} // verus!
