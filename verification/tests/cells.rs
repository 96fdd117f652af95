use petri::{Cell, CellData, CellGroup};

#[test]
fn cell_id_is_its_number() {
    assert_eq!(Cell(7).id(), 7);
    assert_eq!(Cell(u16::MAX).id(), 65535);
}

#[test]
fn default_cell_is_zero() {
    assert_eq!(Cell::default(), Cell(0));
}

#[test]
fn cell_data_new_keeps_fields() {
    let d = CellData::new("pink_sand", 255, 147, 219);
    assert_eq!(d.name, "pink_sand");
    assert_eq!(d.color, [255, 147, 219]);
}

#[test]
fn default_cell_data_is_black_and_nameless() {
    let d = CellData::default();
    assert_eq!(d.name, "");
    assert_eq!(d.color, [0, 0, 0]);
}

#[test]
fn default_group_is_empty() {
    let g = CellGroup::default();
    assert_eq!(g.name, "");
    assert!(!g.void);
    assert!(g.cells.is_empty());
}

#[test]
fn group_has_its_cells_only() {
    let g = CellGroup { name: "liquid".to_owned(), void: false, cells: vec![Cell(0), Cell(2)] };
    assert!(g.has(Cell(0)));
    assert!(g.has(Cell(2)));
    assert!(!g.has(Cell(1)));
    assert!(!CellGroup::default().has(Cell(0)));
}
