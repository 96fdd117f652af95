//! The grid of cells and the test of a template against it.

use vstd::prelude::*;
use crate::cell::{group_views, Cell, CellGroup, GroupView};
use crate::chance::random_byte;
use crate::pattern::{Pattern, RuleCellFrom, SubRule};

verus! {

/// The side of the square grid.
pub const CHUNK_SIZE: usize = 32;

/// The grid as a mathematical value: `cells` holds it column by column.
pub struct Grid {
    pub cells: Seq<Cell>,
}

impl Grid {
    pub open spec fn wf(self) -> bool {
        self.cells.len() == CHUNK_SIZE * CHUNK_SIZE
    }

    /// Whether (`x`, `y`) is a position of the grid.
    pub open spec fn inside(x: int, y: int) -> bool {
        0 <= x < CHUNK_SIZE && 0 <= y < CHUNK_SIZE
    }

    /// The cell at (`x`, `y`), or `None` for the outside.
    pub open spec fn get(self, x: int, y: int) -> Option<Cell> {
        if Self::inside(x, y) {
            Some(self.cells[x * CHUNK_SIZE + y])
        } else {
            None
        }
    }

    /// This grid with `cell` at (`x`, `y`); unchanged where that is outside.
    pub open spec fn with_cell(self, x: int, y: int, cell: Cell) -> Grid {
        if Self::inside(x, y) {
            Grid { cells: self.cells.update(x * CHUNK_SIZE + y, cell) }
        } else {
            self
        }
    }

    /// The grid that holds `cell` everywhere.
    pub open spec fn filled(cell: Cell) -> Grid {
        Grid { cells: Seq::new((CHUNK_SIZE * CHUNK_SIZE) as nat, |i: int| cell) }
    }

    /// This grid sprinkled with cells 1: each cell on a roll of its own, in the order
    /// in which the grid holds them.
    pub open spec fn sprinkled(self, rolls: Seq<u8>) -> Grid {
        Grid { cells: Seq::new(self.cells.len(), |i: int| sprinkled(self.cells[i], rolls[i])) }
    }

    /// Whether two grids hold the same cells away from the rectangle at (`x`, `y`)
    /// of size `w` by `h`.
    pub open spec fn same_outside(self, other: Grid, x: int, y: int, w: int, h: int) -> bool {
        forall|px: int, py: int|
            !(x <= px < x + w && y <= py < y + h) ==> #[trigger] self.get(px, py) == other.get(px, py)
    }
}

/// Grids that hold the same cell at every position are the same grid.
pub proof fn lemma_grid_ext(a: Grid, b: Grid)
    requires
        a.wf(),
        b.wf(),
        forall|x: int, y: int| Grid::inside(x, y) ==> a.get(x, y) == b.get(x, y),
    ensures
        a == b,
{
    assert forall|i: int| 0 <= i < a.cells.len() implies a.cells[i] == b.cells[i] by {
        let x = i / (CHUNK_SIZE as int);
        let y = i % (CHUNK_SIZE as int);
        assert(a.get(x, y) == b.get(x, y));
    }
    assert(a.cells =~= b.cells);
}

/// Whether a template entry accepts what lies under it: `None` stands for the outside.
/// A group that does not exist accepts nothing.
pub open spec fn passes(from: RuleCellFrom, under: Option<Cell>, groups: Seq<GroupView>) -> bool {
    match from {
        RuleCellFrom::Any => true,
        RuleCellFrom::One(cell) => under == Some(cell),
        RuleCellFrom::Group(g) => g < groups.len() && match under {
            Some(cell) => groups[g as int].cells.contains(cell),
            None => groups[g as int].void,
        },
    }
}

/// Whether template `p`, laid with its top-left corner on (`corner_x`, `corner_y`),
/// matches the grid: every entry accepts what lies under it.
pub open spec fn matches_at(
    grid: Grid,
    groups: Seq<GroupView>,
    p: Pattern,
    corner_x: int,
    corner_y: int,
) -> bool {
    forall|dx: int, dy: int|
        p.inside(dx, dy) ==> passes(
            (#[trigger] p.at(dx, dy)).0,
            grid.get(corner_x + dx, corner_y + dy),
            groups,
        )
}

/// The cells of the grid, as stored.
#[derive(Debug)]
pub struct Chunk {
    contents: Vec<Cell>,
}

impl View for Chunk {
    type V = Grid;

    closed spec fn view(&self) -> Grid {
        Grid { cells: self.contents@ }
    }
}

impl Default for Chunk {
    fn default() -> (chunk: Chunk)
        ensures
            chunk.wf(),
            chunk@ == Grid::filled(Cell(0)),
    {
        let mut contents: Vec<Cell> = Vec::new();
        let mut i: usize = 0;
        while i < CHUNK_SIZE * CHUNK_SIZE
            invariant
                i <= CHUNK_SIZE * CHUNK_SIZE,
                contents@.len() == i,
                forall|k: int| 0 <= k < i ==> contents@[k] == Cell(0),
            decreases CHUNK_SIZE * CHUNK_SIZE - i,
        {
            contents.push(Cell(0));
            i += 1;
        }
        assert(contents@ =~= Grid::filled(Cell(0)).cells);
        Chunk { contents }
    }
}

/// What a cell becomes when the grid is sprinkled: cell 1 on one roll in four.
pub open spec fn sprinkled(cell: Cell, roll: u8) -> Cell {
    if roll % 4 == 0 {
        Cell(1)
    } else {
        cell
    }
}

impl Chunk {
    pub open spec fn wf(&self) -> bool {
        self@.wf()
    }

    /// What `cell` becomes for a given roll when the grid is sprinkled.
    pub fn sprinkle(cell: Cell, roll: u8) -> (after: Cell)
        ensures
            after == sprinkled(cell, roll),
    {
        if roll % 4 == 0 {
            Cell(1)
        } else {
            cell
        }
    }

    pub fn fill(&mut self, cell: Cell)
        requires
            old(self).wf(),
        ensures
            final(self).wf(),
            final(self)@ == Grid::filled(cell),
    {
        let mut i: usize = 0;
        while i < CHUNK_SIZE * CHUNK_SIZE
            invariant
                i <= CHUNK_SIZE * CHUNK_SIZE,
                self.contents@.len() == CHUNK_SIZE * CHUNK_SIZE,
                forall|k: int| 0 <= k < i ==> self.contents@[k] == cell,
            decreases CHUNK_SIZE * CHUNK_SIZE - i,
        {
            self.contents.set(i, cell);
            i += 1;
        }
        assert(self.contents@ =~= Grid::filled(cell).cells);
    }

    /// Turns about one cell in four into cell 1, each on a roll of its own.
    pub fn with_random_ones(self) -> (chunk: Chunk)
        requires
            self.wf(),
        ensures
            chunk.wf(),
            exists|rolls: Seq<u8>|
                rolls.len() == CHUNK_SIZE * CHUNK_SIZE && chunk@ == #[trigger] self@.sprinkled(rolls),
    {
        let mut chunk = self;
        let ghost before = chunk@;
        let ghost mut rolls: Seq<u8> = Seq::empty();
        let mut i: usize = 0;
        while i < CHUNK_SIZE * CHUNK_SIZE
            invariant
                i <= CHUNK_SIZE * CHUNK_SIZE,
                chunk.contents@.len() == CHUNK_SIZE * CHUNK_SIZE,
                before.wf(),
                rolls.len() == i,
                forall|k: int| 0 <= k < i ==> #[trigger] chunk.contents@[k] == sprinkled(
                    before.cells[k],
                    rolls[k],
                ),
                forall|k: int|
                    i <= k < CHUNK_SIZE * CHUNK_SIZE ==> #[trigger] chunk.contents@[k] == before.cells[k],
            decreases CHUNK_SIZE * CHUNK_SIZE - i,
        {
            let roll = random_byte();
            let cell = Self::sprinkle(chunk.contents[i], roll);
            chunk.contents.set(i, cell);
            proof {
                rolls = rolls.push(roll);
            }
            i += 1;
        }
        assert(chunk@.cells =~= before.sprinkled(rolls).cells);
        chunk
    }

    pub fn get_cell(&self, x: usize, y: usize) -> (cell: Cell)
        requires
            self.wf(),
            x < CHUNK_SIZE,
            y < CHUNK_SIZE,
        ensures
            Some(cell) == self@.get(x as int, y as int),
    {
        self.contents[x * CHUNK_SIZE + y]
    }

    pub fn set_cell(&mut self, x: usize, y: usize, cell: Cell)
        requires
            old(self).wf(),
            x < CHUNK_SIZE,
            y < CHUNK_SIZE,
        ensures
            final(self).wf(),
            final(self)@ == old(self)@.with_cell(x as int, y as int, cell),
    {
        self.contents.set(x * CHUNK_SIZE + y, cell);
    }
}

/// The world of the simulation: one square grid.
#[derive(Debug)]
pub struct World {
    chunk: Chunk,
}

impl View for World {
    type V = Grid;

    closed spec fn view(&self) -> Grid {
        self.chunk@
    }
}

impl Default for World {
    fn default() -> (world: World)
        ensures
            world.wf(),
            world@ == Grid::filled(Cell(0)),
    {
        World { chunk: Chunk::default() }
    }
}

impl World {
    pub open spec fn wf(&self) -> bool {
        self@.wf()
    }

    /// A world around the given grid.
    pub fn from_chunk(chunk: Chunk) -> (world: World)
        requires
            chunk.wf(),
        ensures
            world.wf(),
            world@ == chunk@,
    {
        World { chunk }
    }

    pub fn fill(&mut self, cell: Cell)
        requires
            old(self).wf(),
        ensures
            final(self).wf(),
            final(self)@ == Grid::filled(cell),
    {
        self.chunk.fill(cell);
    }

    /// The cell at (`x`, `y`), or `None` for the outside.
    pub fn get_cell(&self, x: i128, y: i128) -> (cell: Option<Cell>)
        requires
            self.wf(),
        ensures
            cell == self@.get(x as int, y as int),
    {
        if x < 0 || y < 0 || x >= CHUNK_SIZE as i128 || y >= CHUNK_SIZE as i128 {
            None
        } else {
            Some(self.chunk.get_cell(x as usize, y as usize))
        }
    }

    /// Writes `cell` at (`x`, `y`); does nothing outside the grid.
    pub fn set_cell(&mut self, x: i128, y: i128, cell: Cell)
        requires
            old(self).wf(),
        ensures
            final(self).wf(),
            final(self)@ == old(self)@.with_cell(x as int, y as int, cell),
    {
        if x < 0 || y < 0 || x >= CHUNK_SIZE as i128 || y >= CHUNK_SIZE as i128 {
            return;
        }
        self.chunk.set_cell(x as usize, y as usize, cell);
    }

    /// The cell `dx` to the right of and `dy` below (`corner_x`, `corner_y`), or `None`
    /// for the outside.
    pub fn get_cell_from(&self, corner_x: i128, corner_y: i128, dx: usize, dy: usize) -> (cell: Option<
        Cell,
    >)
        requires
            self.wf(),
        ensures
            cell == self@.get(corner_x + dx, corner_y + dy),
    {
        match (corner_x.checked_add(dx as i128), corner_y.checked_add(dy as i128)) {
            (Some(x), Some(y)) => self.get_cell(x, y),
            _ => None,
        }
    }

    /// Whether an entry that asks for `from` accepts `under`.
    pub fn entry_passes(from: RuleCellFrom, under: Option<Cell>, groups: &Vec<CellGroup>) -> (pass: bool)
        ensures
            pass == passes(from, under, group_views(groups@)),
    {
        match from {
            RuleCellFrom::One(rule_cell) => match under {
                Some(cell) => cell == rule_cell,
                None => false,
            },
            RuleCellFrom::Group(group_id) => {
                if group_id >= groups.len() {
                    return false;
                }
                let group = &groups[group_id];
                match under {
                    Some(cell) => group.has(cell),
                    None => group.void,
                }
            },
            RuleCellFrom::Any => true,
        }
    }

    /// Whether `subrule`, laid with its top-left corner on (`corner_x`, `corner_y`),
    /// matches this world.
    pub fn subrule_matches(
        &self,
        corner_x: i128,
        corner_y: i128,
        subrule: &SubRule,
        groups: &Vec<CellGroup>,
    ) -> (matched: bool)
        requires
            self.wf(),
            subrule.wf(),
        ensures
            matched == matches_at(
                self@,
                group_views(groups@),
                subrule@,
                corner_x as int,
                corner_y as int,
            ),
    {
        let width = subrule.width();
        let height = subrule.height();
        let mut dx: usize = 0;
        while dx < width
            invariant
                self.wf(),
                subrule.wf(),
                width == subrule@.width,
                height == subrule@.height,
                dx <= width,
                forall|x: int, y: int|
                    0 <= x < dx && 0 <= y < height ==> passes(
                        (#[trigger] subrule@.at(x, y)).0,
                        self@.get(corner_x + x, corner_y + y),
                        group_views(groups@),
                    ),
            decreases width - dx,
        {
            let mut dy: usize = 0;
            while dy < height
                invariant
                    self.wf(),
                    subrule.wf(),
                    width == subrule@.width,
                    height == subrule@.height,
                    dx < width,
                    dy <= height,
                    forall|x: int, y: int|
                        0 <= x < dx && 0 <= y < height ==> passes(
                            (#[trigger] subrule@.at(x, y)).0,
                            self@.get(corner_x + x, corner_y + y),
                            group_views(groups@),
                        ),
                    forall|y: int|
                        0 <= y < dy ==> passes(
                            (#[trigger] subrule@.at(dx as int, y)).0,
                            self@.get(corner_x + dx, corner_y + y),
                            group_views(groups@),
                        ),
                decreases height - dy,
            {
                let cell = self.get_cell_from(corner_x, corner_y, dx, dy);
                if !Self::entry_passes(subrule.get(dx, dy).0, cell, groups) {
                    assert(subrule@.inside(dx as int, dy as int));
                    assert(!passes(
                        subrule@.at(dx as int, dy as int).0,
                        self@.get(corner_x + dx, corner_y + dy),
                        group_views(groups@),
                    ));
                    return false;
                }
                dy += 1;
            }
            dx += 1;
        }
        true
    }
}

} // verus!
