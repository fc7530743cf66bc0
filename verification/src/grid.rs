//! The grid: a rectangle of cells, each a wall or a passage.

use vstd::prelude::*;
use vstd::arithmetic::div_mod::lemma_fundamental_div_mod_converse;
use vstd::seq_lib::to_multiset_update;
use vstd::string::*;

verus! {

/// What a cell holds.
#[derive(Clone, Copy, Debug, PartialEq, Eq, Structural)]
pub enum Element {
    Wall,
    Passage,
}

/// The mathematical model of a maze: its dimensions and its cells in
/// row-major order, so that cell `(x, y)` is `cells[y * width + x]`.
pub struct Grid {
    pub width: nat,
    pub height: nat,
    pub cells: Seq<Element>,
}

/// The cell that a fresh grid of the given size holds at `(x, y)`: a passage
/// on the outermost ring, a wall everywhere inside it.
pub open spec fn initial_cell(width: nat, height: nat, x: int, y: int) -> Element {
    if y == 0 || y == height - 1 || x == 0 || x == width - 1 {
        Element::Passage
    } else {
        Element::Wall
    }
}

/// The two characters that stand for a cell in the rendered maze.
pub open spec fn glyph(e: Element) -> Seq<char> {
    match e {
        Element::Wall => seq!['[', ']'],
        Element::Passage => seq![' ', ' '],
    }
}

impl Grid {
    /// There is exactly one cell for each coordinate pair.
    pub open spec fn well_formed(self) -> bool {
        self.cells.len() == self.width * self.height
    }

    /// `(x, y)` names a cell of the grid.
    pub open spec fn contains(self, x: int, y: int) -> bool {
        0 <= x < self.width && 0 <= y < self.height
    }

    /// `(x, y)` lies on the outermost ring of the grid.
    pub open spec fn on_border(self, x: int, y: int) -> bool {
        self.contains(x, y) && (x == 0 || x == self.width - 1 || y == 0 || y == self.height - 1)
    }

    /// `(x, y)` lies strictly inside the outermost ring.
    pub open spec fn interior(self, x: int, y: int) -> bool {
        0 < x < self.width - 1 && 0 < y < self.height - 1
    }

    /// Position of cell `(x, y)` in `cells`.
    pub open spec fn index(self, x: int, y: int) -> int {
        y * self.width + x
    }

    /// The cell at `(x, y)`.
    pub open spec fn at(self, x: int, y: int) -> Element {
        self.cells[self.index(x, y)]
    }

    /// `(x, y)` names a cell and that cell is a wall. Coordinates outside the
    /// grid name no wall.
    pub open spec fn is_wall(self, x: int, y: int) -> bool {
        self.contains(x, y) && self.at(x, y) == Element::Wall
    }

    /// The grid with cell `(x, y)` turned into a passage. Coordinates outside
    /// the grid change nothing.
    pub open spec fn open(self, x: int, y: int) -> Grid {
        if self.contains(x, y) {
            Grid { cells: self.cells.update(self.index(x, y), Element::Passage), ..self }
        } else {
            self
        }
    }

    /// Every cell of the outermost ring is a passage.
    pub open spec fn border_open(self) -> bool {
        forall|x: int, y: int| #[trigger] self.on_border(x, y) ==> self.at(x, y) == Element::Passage
    }

    /// Number of wall cells.
    pub open spec fn walls(self) -> nat {
        self.cells.to_multiset().count(Element::Wall)
    }

    /// The grid as it is before any carving: an open border around solid wall.
    pub open spec fn initial(width: nat, height: nat) -> Grid {
        Grid {
            width,
            height,
            cells: Seq::new(
                width * height,
                |i: int| initial_cell(width, height, i % (width as int), i / (width as int)),
            ),
        }
    }

    /// The glyphs of the first `n` cells of row `y`, left to right.
    pub open spec fn glyphs(self, y: int, n: nat) -> Seq<Seq<char>> {
        Seq::new(n, |x: int| glyph(self.at(x, y)))
    }

    /// Row `y` as text: the glyphs of its cells joined, left to right.
    pub open spec fn line(self, y: int) -> Seq<char> {
        self.glyphs(y, self.width).flatten()
    }

    /// The whole maze as text, one line per row, top to bottom.
    pub open spec fn rendered(self) -> Seq<Seq<char>> {
        Seq::new(self.height, |y: int| self.line(y))
    }

    /// Row-major indexing stays inside `cells` and recovers its coordinates.
    pub proof fn lemma_index(self, x: int, y: int)
        requires
            self.well_formed(),
            self.contains(x, y),
        ensures
            0 <= self.index(x, y) < self.cells.len(),
            self.index(x, y) % (self.width as int) == x,
            self.index(x, y) / (self.width as int) == y,
    {
        let w = self.width as int;
        let h = self.height as int;
        assert(0 <= y * w && y * w + w <= h * w) by (nonlinear_arith)
            requires
                0 <= y < h,
                0 < w,
        ;
        assert(h * w == w * h) by (nonlinear_arith);
        lemma_fundamental_div_mod_converse(self.index(x, y), w, y, x);
    }

    /// Distinct cells have distinct positions in `cells`.
    pub proof fn lemma_index_injective(self, x1: int, y1: int, x2: int, y2: int)
        requires
            self.well_formed(),
            self.contains(x1, y1),
            self.contains(x2, y2),
            self.index(x1, y1) == self.index(x2, y2),
        ensures
            x1 == x2,
            y1 == y2,
    {
        self.lemma_index(x1, y1);
        self.lemma_index(x2, y2);
    }

    /// What `open` does, cell by cell: the opened cell becomes a passage and
    /// every other cell keeps what it held.
    pub proof fn lemma_open(self, x: int, y: int, x2: int, y2: int)
        requires
            self.well_formed(),
            self.contains(x2, y2),
        ensures
            self.open(x, y).well_formed(),
            self.open(x, y).width == self.width,
            self.open(x, y).height == self.height,
            self.open(x, y).at(x2, y2) == if x == x2 && y == y2 {
                Element::Passage
            } else {
                self.at(x2, y2)
            },
    {
        self.lemma_index(x2, y2);
        if self.contains(x, y) {
            self.lemma_index(x, y);
            if self.index(x, y) == self.index(x2, y2) {
                self.lemma_index_injective(x, y, x2, y2);
            }
        }
    }

    /// A grid of at least three rows and three columns whose cells can be
    /// counted in a `usize` has coordinates that fit in an `isize`.
    pub proof fn lemma_coordinates_fit(self)
        requires
            self.well_formed(),
            self.width >= 3,
            self.height >= 3,
            self.cells.len() <= usize::MAX,
        ensures
            self.width <= isize::MAX,
            self.height <= isize::MAX,
    {
        let w = self.width as int;
        let h = self.height as int;
        assert(3 * w <= w * h && 3 * h <= w * h) by (nonlinear_arith)
            requires
                w >= 3,
                h >= 3,
        ;
    }

    /// A fresh grid holds `initial_cell` at every coordinate.
    pub proof fn lemma_initial(width: nat, height: nat, x: int, y: int)
        requires
            Grid::initial(width, height).contains(x, y),
        ensures
            Grid::initial(width, height).well_formed(),
            Grid::initial(width, height).at(x, y) == initial_cell(width, height, x, y),
    {
        Grid::initial(width, height).lemma_index(x, y);
    }

    /// Opening a wall leaves one wall fewer; opening anything else changes
    /// nothing.
    pub proof fn lemma_open_walls(self, x: int, y: int)
        requires
            self.well_formed(),
        ensures
            self.is_wall(x, y) ==> self.open(x, y).walls() == self.walls() - 1,
            !self.is_wall(x, y) ==> self.open(x, y) == self,
    {
        broadcast use vstd::multiset::group_multiset_axioms;

        if self.contains(x, y) {
            self.lemma_index(x, y);
            let i = self.index(x, y);
            to_multiset_update(self.cells, i, Element::Passage);
            if self.cells[i] == Element::Wall {
                self.cells.to_multiset_ensures();
                assert(self.cells.contains(Element::Wall));
            } else {
                assert(self.cells.update(i, Element::Passage) =~= self.cells);
            }
        }
    }

    /// `self` is `earlier` with some more cells opened: the same size, no
    /// passage closed again, and no wall added.
    pub open spec fn opened_from(self, earlier: Grid) -> bool {
        &&& self.width == earlier.width
        &&& self.height == earlier.height
        &&& self.well_formed()
        &&& self.walls() <= earlier.walls()
        &&& forall|x: int, y: int|
            #![trigger self.at(x, y)]
            #![trigger earlier.at(x, y)]
            earlier.contains(x, y) && earlier.at(x, y) == Element::Passage ==> self.at(x, y)
                == Element::Passage
    }

    /// Opening a cell only opens.
    pub proof fn lemma_open_opened_from(self, x: int, y: int)
        requires
            self.well_formed(),
        ensures
            self.open(x, y).opened_from(self),
            self.contains(x, y) ==> self.open(x, y).at(x, y) == Element::Passage,
    {
        self.lemma_open_walls(x, y);
        let after = self.open(x, y);
        assert forall|cx: int, cy: int|
            #![trigger after.at(cx, cy)]
            #![trigger self.at(cx, cy)]
            self.contains(cx, cy) && self.at(cx, cy) == Element::Passage implies after.at(cx, cy)
            == Element::Passage by {
            self.lemma_open(x, y, cx, cy);
        }
        if self.contains(x, y) {
            self.lemma_open(x, y, x, y);
        }
    }
}

/// A maze in memory. Its model is the [`Grid`] that `@` gives.
pub struct Maze {
    width: usize,
    height: usize,
    data: Vec<Element>,
}

impl View for Maze {
    type V = Grid;

    closed spec fn view(&self) -> Grid {
        Grid { width: self.width as nat, height: self.height as nat, cells: self.data@ }
    }
}

impl Maze {
    /// What holds of every maze that this library hands out: it has a cell
    /// for each coordinate pair, at least three rows and three columns, and
    /// an open border.
    pub open spec fn wf(&self) -> bool {
        &&& self@.width >= 3
        &&& self@.height >= 3
        &&& self@.well_formed()
        &&& self@.cells.len() <= usize::MAX
        &&& self@.border_open()
    }

    /// Creates the grid that carving starts from: every cell of the outermost
    /// ring a passage, every cell inside it a wall.
    pub fn init(width: usize, height: usize) -> (maze: Maze)
        requires
            width >= 3,
            height >= 3,
            width * height <= usize::MAX,
        ensures
            maze.wf(),
            maze@ == Grid::initial(width as nat, height as nat),
    {
        let mut data: Vec<Element> = Vec::new();
        let ghost target = Grid::initial(width as nat, height as nat);
        assert(0 * width == 0);
        for y in 0..height
            invariant
                width >= 3,
                height >= 3,
                width * height <= usize::MAX,
                target == Grid::initial(width as nat, height as nat),
                data@.len() == y * width,
                data@.len() <= target.cells.len(),
                forall|i: int| 0 <= i < data@.len() ==> data@[i] == target.cells[i],
        {
            for x in 0..width
                invariant
                    width >= 3,
                    height >= 3,
                    y < height,
                    width * height <= usize::MAX,
                    target == Grid::initial(width as nat, height as nat),
                    data@.len() == y * width + x,
                    data@.len() <= target.cells.len(),
                    forall|i: int| 0 <= i < data@.len() ==> data@[i] == target.cells[i],
            {
                let value = if y == 0 || y == height - 1 {
                    Element::Passage
                } else if x == 0 || x == width - 1 {
                    Element::Passage
                } else {
                    Element::Wall
                };
                proof {
                    Grid::lemma_initial(width as nat, height as nat, x as int, y as int);
                    target.lemma_index(x as int, y as int);
                }
                data.push(value);
            }
            assert(y * width + width == (y + 1) * width) by (nonlinear_arith);
        }
        proof {
            assert(height * width == width * height) by (nonlinear_arith);
            assert(data@ =~= target.cells);
            assert forall|x: int, y: int| #[trigger] target.on_border(x, y) implies target.at(x, y)
                == Element::Passage by {
                Grid::lemma_initial(width as nat, height as nat, x, y);
            }
        }
        Maze { width, height, data }
    }

    /// Number of columns.
    pub fn width(&self) -> (w: usize)
        ensures
            w == self@.width,
    {
        self.width
    }

    /// Number of rows.
    pub fn height(&self) -> (h: usize)
        ensures
            h == self@.height,
    {
        self.height
    }

    /// Tells whether the cell at `(x, y)` is a wall.
    pub fn is_wall(&self, x: isize, y: isize) -> (wall: bool)
        requires
            self.wf(),
            self@.contains(x as int, y as int),
        ensures
            wall == self@.is_wall(x as int, y as int),
    {
        proof {
            self@.lemma_index(x as int, y as int);
        }
        let (ux, uy) = (x as usize, y as usize);
        match self.data[uy * self.width + ux] {
            Element::Wall => true,
            Element::Passage => false,
        }
    }

    /// Turns the cell at `(x, y)` into a passage.
    pub fn set_passage(&mut self, x: isize, y: isize)
        requires
            old(self).wf(),
            old(self)@.contains(x as int, y as int),
        ensures
            final(self).wf(),
            final(self)@ == old(self)@.open(x as int, y as int),
    {
        proof {
            self@.lemma_index(x as int, y as int);
        }
        let ghost before = self@;
        let (ux, uy) = (x as usize, y as usize);
        let index = uy * self.width + ux;
        proof {
            assert forall|bx: int, by: int| #[trigger]
                before.open(x as int, y as int).on_border(bx, by) implies before.open(
                x as int,
                y as int,
            ).at(bx, by) == Element::Passage by {
                assert(before.on_border(bx, by));
                before.lemma_open(x as int, y as int, bx, by);
            }
        }
        self.data.set(index, Element::Passage);
    }

    /// Row `y` as text: `"[]"` for each wall and two spaces for each passage.
    pub fn render_row(&self, y: usize) -> (text: String)
        requires
            self.wf(),
            y < self@.height,
        ensures
            text@ == self@.line(y as int),
    {
        proof {
            reveal_strlit("[]");
            reveal_strlit("  ");
        }
        let mut text = String::new();
        assert(self@.glyphs(y as int, 0) =~= Seq::<Seq<char>>::empty());
        for x in 0..self.width
            invariant
                self.wf(),
                y < self.height,
                "[]"@ == seq!['[', ']'],
                "  "@ == seq![' ', ' '],
                text@ == self@.glyphs(y as int, x as nat).flatten(),
        {
            proof {
                self@.lemma_index(x as int, y as int);
                let cell = glyph(self@.at(x as int, y as int));
                let done = self@.glyphs(y as int, x as nat);
                assert(self@.glyphs(y as int, (x + 1) as nat) =~= done.push(cell));
                done.lemma_flatten_push(cell);
            }
            match self.data[y * self.width + x] {
                Element::Wall => text.append("[]"),
                Element::Passage => text.append("  "),
            }
        }
        text
    }

    /// The maze as text, one line per row from top to bottom.
    pub fn render(&self) -> (lines: Vec<String>)
        requires
            self.wf(),
        ensures
            lines.deep_view() == self@.rendered(),
    {
        let mut lines: Vec<String> = Vec::new();
        for y in 0..self.height
            invariant
                self.wf(),
                lines@.len() == y,
                forall|i: int| 0 <= i < y ==> (#[trigger] lines@[i])@ == self@.line(i),
        {
            let line = self.render_row(y);
            lines.push(line);
        }
        assert(lines.deep_view() =~= self@.rendered());
        lines
    }
}

} // verus!
