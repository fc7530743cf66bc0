//! Carving a maze out of a fresh grid.

use vstd::prelude::*;
use crate::grid::{Element, Grid, Maze};
use crate::laws::{
    corridors, corridors_but_for_exit, lemma_generated_border, lemma_generated_corridors,
    lemma_generated_openings, lemma_generated_rooms, lemma_probes_stay_inside,
};
use crate::model::{
    carve_around, carve_from, direction, draw_at, entrance, exit, generated,
    lemma_carve_from_opens, Carved,
};
use crate::source::{DrawSource, ThreadSource};

verus! {

/// A prefix of a prefix is a prefix.
proof fn lemma_prefix_transitive(a: Seq<usize>, b: Seq<usize>, c: Seq<usize>)
    requires
        a.is_prefix_of(b),
        b.is_prefix_of(c),
    ensures
        a.is_prefix_of(c),
{
    assert(a =~= c.subrange(0, a.len() as int)) by {
        assert forall|j: int| 0 <= j < a.len() implies a[j] == c[j] by {
            assert(a[j] == b.subrange(0, a.len() as int)[j]);
            assert(b[j] == c.subrange(0, b.len() as int)[j]);
        }
    }
}

/// A sequence that continues `shorter.push(d)` holds `d` right after
/// `shorter`.
proof fn lemma_prefix_holds_last(shorter: Seq<usize>, d: usize, all: Seq<usize>)
    requires
        shorter.push(d).is_prefix_of(all),
    ensures
        shorter.is_prefix_of(all),
        draw_at(all, shorter.len() as int) == d,
{
    let longer = shorter.push(d);
    assert(shorter.is_prefix_of(longer)) by {
        assert(shorter =~= longer.subrange(0, shorter.len() as int));
    }
    lemma_prefix_transitive(shorter, longer, all);
    let last = shorter.len() as int;
    assert(longer[last] == all.subrange(0, longer.len() as int)[last]);
}

/// The step of direction `k` as machine integers.
fn step(k: usize) -> (d: (isize, isize))
    requires
        k < 4,
    ensures
        (d.0 as int, d.1 as int) == direction(k as int),
{
    if k == 0 {
        (1, 0)
    } else if k == 1 {
        (-1, 0)
    } else if k == 2 {
        (0, 1)
    } else {
        (0, -1)
    }
}

/// A room that carving has entered and not yet left: where it is, the
/// direction that was drawn for it, and how many directions it has tried.
#[derive(Clone, Copy)]
struct Visit {
    x: usize,
    y: usize,
    first: usize,
    tried: usize,
}

impl Visit {
    /// The room lies inside the border of `g` and its counters are in range.
    spec fn fits(self, g: Grid) -> bool {
        g.interior(self.x as int, self.y as int) && self.first < 4 && self.tried <= 4
    }
}

/// What carving ends with when it goes on from grid `g` with the rooms of
/// `path` still open, the innermost last: the directions left around the
/// innermost room are tried, then those around the room that led to it, and
/// so on outwards.
spec fn resume(path: Seq<Visit>, g: Grid, draws: Seq<usize>, used: nat) -> Carved
    decreases path.len(),
{
    if path.len() == 0 {
        Carved { grid: g, used }
    } else {
        let visit = path.last();
        let inner = carve_around(
            g,
            draws,
            used,
            visit.x as int,
            visit.y as int,
            visit.first as int,
            visit.tried as int,
        );
        resume(path.drop_last(), inner.grid, draws, inner.used)
    }
}

/// How many steps the rooms of `path` can still take without entering a new
/// room: one for each direction left to try and one for leaving.
spec fn pending(path: Seq<Visit>) -> nat
    decreases path.len(),
{
    if path.len() == 0 {
        0
    } else {
        pending(path.drop_last()) + (5 - path.last().tried) as nat
    }
}

impl Maze {
    /// Carves the maze starting at `(x, y)`, a cell inside the border.
    ///
    /// The rooms that carving has entered and not yet left are kept on a
    /// path of its own, so that the depth of the maze is not limited by the
    /// call stack. The result is what the model computes from the draws that
    /// `rng` handed out during the call, and every one of those draws was
    /// read.
    pub fn carve<R: DrawSource>(&mut self, rng: &mut R, x: usize, y: usize)
        requires
            old(self).wf(),
            old(self)@.interior(x as int, y as int),
        ensures
            final(self).wf(),
            final(self)@.opened_from(old(self)@),
            old(rng).drawn().is_prefix_of(final(rng).drawn()),
            carve_from(old(self)@, final(rng).drawn(), old(rng).drawn().len(), x as int, y as int)
                == (Carved { grid: final(self)@, used: final(rng).drawn().len() }),
    {
        let ghost start = self@;
        let ghost before = rng.drawn();
        proof {
            start.lemma_coordinates_fit();
            start.lemma_open_opened_from(x as int, y as int);
        }
        self.set_passage(x as isize, y as isize);
        let first = rng.next_draw() % 4;
        let mut path: Vec<Visit> = Vec::new();
        path.push(Visit { x, y, first, tried: 0 });
        proof {
            let seen = rng.drawn();
            assert(path@.drop_last() =~= Seq::<Visit>::empty());
            assert forall|all: Seq<usize>| #[trigger] seen.is_prefix_of(all) implies carve_from(
                start,
                all,
                before.len(),
                x as int,
                y as int,
            ) == resume(path@, self@, all, seen.len()) by {
                lemma_prefix_holds_last(before, seen.last(), all);
                reveal_with_fuel(resume, 2);
            }
            assert(before.is_prefix_of(seen)) by {
                assert(before =~= seen.subrange(0, before.len() as int));
            }
        }
        while path.len() > 0
            invariant
                self.wf(),
                self@.opened_from(start),
                start.width <= isize::MAX,
                start.height <= isize::MAX,
                forall|k: int| 0 <= k < path@.len() ==> (#[trigger] path@[k]).fits(start),
                before.is_prefix_of(rng.drawn()),
                forall|all: Seq<usize>| #[trigger]
                    rng.drawn().is_prefix_of(all) ==> carve_from(
                        start,
                        all,
                        before.len(),
                        x as int,
                        y as int,
                    ) == resume(path@, self@, all, rng.drawn().len()),
            decreases self@.walls(), pending(path@),
        {
            let ghost now = self@;
            let ghost seen = rng.drawn();
            let ghost open_rooms = path@;
            let ghost mut hopped = false;
            let visit = path.pop().unwrap();
            let ghost outer = path@;
            assert(outer =~= open_rooms.drop_last());
            if visit.tried < 4 {
                let (dx, dy) = step((visit.first + visit.tried) % 4);
                proof {
                    lemma_probes_stay_inside(
                        now,
                        visit.x as int,
                        visit.y as int,
                        ((visit.first + visit.tried) % 4) as int,
                    );
                }
                let again = Visit {
                    x: visit.x,
                    y: visit.y,
                    first: visit.first,
                    tried: visit.tried + 1,
                };
                path.push(again);
                let x2 = visit.x as isize + dx;
                let y2 = visit.y as isize + dy;
                let ghost beyond = (x2 + dx, y2 + dy);
                if self.is_wall(x2, y2) {
                    let nx = x2 + dx;
                    let ny = y2 + dy;
                    if self.is_wall(nx, ny) {
                        proof {
                            let door = now.open(x2 as int, y2 as int);
                            now.lemma_open_opened_from(x2 as int, y2 as int);
                            now.lemma_open_walls(x2 as int, y2 as int);
                            now.lemma_open(x2 as int, y2 as int, nx as int, ny as int);
                            door.lemma_open_opened_from(nx as int, ny as int);
                            door.lemma_open_walls(nx as int, ny as int);
                            hopped = true;
                        }
                        self.set_passage(x2, y2);
                        self.set_passage(nx, ny);
                        let first = rng.next_draw() % 4;
                        path.push(Visit { x: nx as usize, y: ny as usize, first, tried: 0 });
                    }
                }
                proof {
                    let grown = rng.drawn();
                    let after = self@;
                    let rooms = path@;
                    let kept = outer.push(again);
                    assert(kept.drop_last() =~= outer);
                    if hopped {
                        assert(rooms.drop_last() =~= kept);
                        assert(seen.is_prefix_of(grown)) by {
                            assert(seen =~= grown.subrange(0, seen.len() as int));
                        }
                    }
                    lemma_prefix_transitive(before, seen, grown);
                    assert forall|all: Seq<usize>| #[trigger]
                        grown.is_prefix_of(all) implies carve_from(
                        start,
                        all,
                        before.len(),
                        x as int,
                        y as int,
                    ) == resume(rooms, after, all, grown.len()) by {
                        if hopped {
                            lemma_prefix_holds_last(seen, grown.last(), all);
                            lemma_carve_from_opens(
                                now.open(x2 as int, y2 as int),
                                all,
                                seen.len(),
                                beyond.0,
                                beyond.1,
                            );
                        }
                        assert(seen.is_prefix_of(all));
                        reveal_with_fuel(resume, 3);
                    }
                }
            }
        }
        proof {
            assert(rng.drawn().is_prefix_of(rng.drawn()));
        }
    }

    /// Generates a maze of the given size with the draws of `rng`: a fresh
    /// grid is carved from the seed cell `(2, 2)`, and then the entrance
    /// `(2, 1)` and the exit `(width - 3, height - 2)` are opened.
    ///
    /// The maze is what the model computes from the draws that `rng` handed
    /// out during the call.
    pub fn generate_with<R: DrawSource>(width: usize, height: usize, rng: &mut R) -> (maze: Maze)
        requires
            width >= 4,
            height >= 4,
            width * height <= usize::MAX,
        ensures
            maze.wf(),
            old(rng).drawn().is_prefix_of(final(rng).drawn()),
            generated(width as nat, height as nat, final(rng).drawn(), old(rng).drawn().len())
                == (Carved { grid: maze@, used: final(rng).drawn().len() }),
            maze@.width == width,
            maze@.height == height,
            maze@.border_open(),
            maze@.at(entrance().0, entrance().1) == Element::Passage,
            maze@.at(exit(width as nat, height as nat).0, exit(width as nat, height as nat).1)
                == Element::Passage,
            corridors_but_for_exit(maze@),
            width % 2 == 1 && height % 2 == 1 ==> corridors(maze@),
    {
        let mut maze = Maze::init(width, height);
        maze.carve(rng, 2, 2);
        maze.set_passage(2, 1);
        proof {
            maze@.lemma_coordinates_fit();
        }
        maze.set_passage((width - 3) as isize, (height - 2) as isize);
        proof {
            let start = old(rng).drawn().len();
            lemma_generated_border(width as nat, height as nat, rng.drawn(), start);
            lemma_generated_openings(width as nat, height as nat, rng.drawn(), start);
            lemma_generated_corridors(width as nat, height as nat, rng.drawn(), start);
            if width % 2 == 1 && height % 2 == 1 {
                lemma_generated_rooms(width as nat, height as nat, rng.drawn(), start);
            }
        }
        maze
    }

    /// Generates a maze of the given size with draws from the random number
    /// generator of the current thread.
    ///
    /// Whatever was drawn, the maze is the one that the model computes from
    /// some sequence of draws, all of them read.
    pub fn generate(width: usize, height: usize) -> (maze: Maze)
        requires
            width >= 4,
            height >= 4,
            width * height <= usize::MAX,
        ensures
            maze.wf(),
            exists|draws: Seq<usize>| #[trigger]
                generated(width as nat, height as nat, draws, 0) == (Carved {
                    grid: maze@,
                    used: draws.len(),
                }),
            maze@.width == width,
            maze@.height == height,
            maze@.border_open(),
            maze@.at(entrance().0, entrance().1) == Element::Passage,
            maze@.at(exit(width as nat, height as nat).0, exit(width as nat, height as nat).1)
                == Element::Passage,
            corridors_but_for_exit(maze@),
            width % 2 == 1 && height % 2 == 1 ==> corridors(maze@),
    {
        let mut rng = ThreadSource::new();
        Maze::generate_with(width, height, &mut rng)
    }
}

} // verus!
