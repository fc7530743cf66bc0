//! What carving computes, as functions on the grid model.
//!
//! Carving from a cell opens it, draws a number, and then tries the four
//! directions in rotated order starting at that number. A direction is taken
//! when both the neighbouring cell and the cell beyond it are walls: the
//! neighbour is opened and carving goes on from the cell beyond before the
//! next direction is tried.

use vstd::prelude::*;
use crate::grid::{Element, Grid};

verus! {

/// The step of direction `k`: east, west, south, north for 0, 1, 2, 3.
pub open spec fn direction(k: int) -> (int, int) {
    if k == 0 {
        (1, 0)
    } else if k == 1 {
        (-1, 0)
    } else if k == 2 {
        (0, 1)
    } else {
        (0, -1)
    }
}

/// The draw at position `k`, or zero where the sequence has none.
pub open spec fn draw_at(draws: Seq<usize>, k: int) -> int {
    if 0 <= k < draws.len() {
        draws[k] as int
    } else {
        0
    }
}

/// A grid together with the position in the sequence of draws that carving
/// has reached.
pub struct Carved {
    pub grid: Grid,
    pub used: nat,
}

/// The grid and position that carving from `(x, y)` ends with, when it starts
/// on grid `g` and reads its draws from position `used` on.
pub open spec fn carve_from(g: Grid, draws: Seq<usize>, used: nat, x: int, y: int) -> Carved
    decreases g.walls(), 5int,
    when g.well_formed()
{
    proof {
        g.lemma_open_walls(x, y);
    }
    carve_around(g.open(x, y), draws, used + 1, x, y, draw_at(draws, used as int) % 4, 0)
}

/// The grid and position that trying directions `i..4` around `(x, y)` ends
/// with, where `first` is the direction that was drawn for this cell.
///
/// Carving never adds a wall, so the test on the number of walls always
/// succeeds (`lemma_carve_from_opens`); it is what makes the definition
/// well-founded.
pub open spec fn carve_around(
    g: Grid,
    draws: Seq<usize>,
    used: nat,
    x: int,
    y: int,
    first: int,
    i: int,
) -> Carved
    decreases g.walls(), 4 - i,
    when g.well_formed()
{
    if i < 0 || i >= 4 {
        Carved { grid: g, used }
    } else {
        let (dx, dy) = direction((first + i) % 4);
        let (x2, y2) = (x + dx, y + dy);
        let (nx, ny) = (x2 + dx, y2 + dy);
        if g.is_wall(x2, y2) && g.is_wall(nx, ny) {
            proof {
                g.lemma_open_walls(x2, y2);
            }
            let beyond = carve_from(g.open(x2, y2), draws, used, nx, ny);
            if beyond.grid.walls() <= g.walls() {
                carve_around(beyond.grid, draws, beyond.used, x, y, first, i + 1)
            } else {
                beyond
            }
        } else {
            carve_around(g, draws, used, x, y, first, i + 1)
        }
    }
}

/// The seed cell, where carving starts.
pub open spec fn seed() -> (int, int) {
    (2, 2)
}

/// The entrance, just below the top border.
pub open spec fn entrance() -> (int, int) {
    (2, 1)
}

/// The exit of a maze of the given size, just above the bottom border.
pub open spec fn exit(width: nat, height: nat) -> (int, int) {
    (width - 3, height - 2)
}

/// The maze of the given size that the draws from position `start` on give:
/// a fresh grid carved from the seed, with the entrance below the top border
/// and the exit above the bottom border opened afterwards.
pub open spec fn generated(width: nat, height: nat, draws: Seq<usize>, start: nat) -> Carved {
    let carved = carve_from(Grid::initial(width, height), draws, start, seed().0, seed().1);
    Carved {
        grid: carved.grid.open(entrance().0, entrance().1).open(
            exit(width, height).0,
            exit(width, height).1,
        ),
        used: carved.used,
    }
}

/// Carving from a cell only opens cells, opens that cell, and uses at least
/// one draw.
pub proof fn lemma_carve_from_opens(g: Grid, draws: Seq<usize>, used: nat, x: int, y: int)
    requires
        g.well_formed(),
    ensures
        carve_from(g, draws, used, x, y).grid.opened_from(g),
        carve_from(g, draws, used, x, y).used > used,
        g.contains(x, y) ==> carve_from(g, draws, used, x, y).grid.at(x, y) == Element::Passage,
    decreases g.walls(), 5int,
{
    g.lemma_open_opened_from(x, y);
    lemma_carve_around_opens(
        g.open(x, y),
        draws,
        used + 1,
        x,
        y,
        draw_at(draws, used as int) % 4,
        0,
    );
}

/// Trying directions around a cell only opens cells and never gives a draw
/// back.
pub proof fn lemma_carve_around_opens(
    g: Grid,
    draws: Seq<usize>,
    used: nat,
    x: int,
    y: int,
    first: int,
    i: int,
)
    requires
        g.well_formed(),
    ensures
        carve_around(g, draws, used, x, y, first, i).grid.opened_from(g),
        carve_around(g, draws, used, x, y, first, i).used >= used,
    decreases g.walls(), 4 - i,
{
    if 0 <= i < 4 {
        let (dx, dy) = direction((first + i) % 4);
        let (x2, y2) = (x + dx, y + dy);
        let (nx, ny) = (x2 + dx, y2 + dy);
        if g.is_wall(x2, y2) && g.is_wall(nx, ny) {
            g.lemma_open_opened_from(x2, y2);
            g.lemma_open_walls(x2, y2);
            lemma_carve_from_opens(g.open(x2, y2), draws, used, nx, ny);
            let beyond = carve_from(g.open(x2, y2), draws, used, nx, ny);
            lemma_carve_around_opens(beyond.grid, draws, beyond.used, x, y, first, i + 1);
        } else {
            lemma_carve_around_opens(g, draws, used, x, y, first, i + 1);
        }
    }
}

} // verus!
