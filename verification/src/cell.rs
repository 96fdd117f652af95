//! Cells, their display records and named groups of cells.

use vstd::prelude::*;

verus! {

/// The kind of matter at one grid position, as an index into the table of cell types.
#[derive(Clone, Copy, Debug, PartialEq, Eq, Structural)]
pub struct Cell(pub u16);

impl Cell {
    /// The index of this cell's entry in the table of cell types.
    pub fn id(&self) -> (id: usize)
        ensures
            id == self.0,
    {
        self.0 as usize
    }
}

impl Default for Cell {
    fn default() -> (cell: Cell)
        ensures
            cell == Cell(0),
    {
        Cell(0)
    }
}

/// How a cell type is shown: its name and its colour as red, green, blue.
#[derive(Debug)]
pub struct CellData {
    pub name: String,
    pub color: [u8; 3],
}

impl CellData {
    pub fn new(name: &str, r: u8, g: u8, b: u8) -> (data: CellData)
        ensures
            data.name@ == name@,
            data.color@ == seq![r, g, b],
    {
        CellData { name: name.to_owned(), color: [r, g, b] }
    }
}

impl Clone for CellData {
    fn clone(&self) -> (copy: CellData)
        ensures
            copy.name@ == self.name@,
            copy.color == self.color,
    {
        CellData { name: self.name.clone(), color: self.color }
    }
}

impl Default for CellData {
    fn default() -> (data: CellData)
        ensures
            data.name@ == Seq::<char>::empty(),
            data.color@ == seq![0u8, 0u8, 0u8],
    {
        CellData { name: String::new(), color: [0, 0, 0] }
    }
}

/// A named set of cells. A void group also stands for the space outside the grid.
#[derive(Debug)]
pub struct CellGroup {
    pub name: String,
    pub void: bool,
    pub cells: Vec<Cell>,
}

/// A group as a mathematical value.
pub struct GroupView {
    pub name: Seq<char>,
    pub void: bool,
    pub cells: Seq<Cell>,
}

impl View for CellGroup {
    type V = GroupView;

    open spec fn view(&self) -> GroupView {
        GroupView { name: self.name@, void: self.void, cells: self.cells@ }
    }
}

/// The groups of a list, each as the engine reads it.
pub open spec fn group_views(groups: Seq<CellGroup>) -> Seq<GroupView> {
    Seq::new(groups.len(), |i: int| groups[i]@)
}

impl Clone for CellGroup {
    fn clone(&self) -> (copy: CellGroup)
        ensures
            copy@ == self@,
    {
        let mut cells: Vec<Cell> = Vec::new();
        let mut i: usize = 0;
        while i < self.cells.len()
            invariant
                i <= self.cells.len(),
                cells@ == self.cells@.subrange(0, i as int),
            decreases self.cells.len() - i,
        {
            cells.push(self.cells[i]);
            assert(cells@ == self.cells@.subrange(0, i + 1));
            i += 1;
        }
        assert(cells@ == self.cells@);
        CellGroup { name: self.name.clone(), void: self.void, cells }
    }
}

impl Default for CellGroup {
    fn default() -> (group: CellGroup)
        ensures
            group.name@ == Seq::<char>::empty(),
            !group.void,
            group.cells@ == Seq::<Cell>::empty(),
    {
        CellGroup { name: String::new(), void: false, cells: Vec::new() }
    }
}

impl CellGroup {
    /// Whether `cell` is listed in this group.
    pub fn has(&self, cell: Cell) -> (found: bool)
        ensures
            found == self.cells@.contains(cell),
    {
        let mut i: usize = 0;
        while i < self.cells.len()
            invariant
                i <= self.cells.len(),
                forall|k: int| 0 <= k < i ==> self.cells@[k] != cell,
            decreases self.cells.len() - i,
        {
            if self.cells[i] == cell {
                return true;
            }
            i += 1;
        }
        false
    }
}

} // verus!
