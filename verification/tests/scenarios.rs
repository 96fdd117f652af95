use petri::{Cell, CellData, CellGroup, Dish, Rule, RuleCellFrom, RuleCellTo};

const WALL: u16 = 9;

fn fall() -> Rule {
    let mut rule = Rule::from_contents(
        "fall".to_owned(),
        1,
        2,
        vec![
            (RuleCellFrom::One(Cell(1)), RuleCellTo::One(Cell(0))),
            (RuleCellFrom::One(Cell(0)), RuleCellTo::One(Cell(1))),
        ],
    )
    .unwrap();
    rule.enabled = true;
    rule
}

fn slide() -> Rule {
    let mut rule = Rule::from_contents(
        "slide".to_owned(),
        2,
        2,
        vec![
            (RuleCellFrom::One(Cell(1)), RuleCellTo::One(Cell(0))),
            (RuleCellFrom::Any, RuleCellTo::Keep),
            (RuleCellFrom::One(Cell(1)), RuleCellTo::Keep),
            (RuleCellFrom::One(Cell(0)), RuleCellTo::One(Cell(1))),
        ],
    )
    .unwrap();
    rule.enabled = true;
    rule.flip_x = true;
    rule.generate_variants();
    rule
}

/// A dish whose world is walled off but for a region of the given size at the
/// top-left corner, which holds `cells` row by row.
fn walled(rules: Vec<Rule>, groups: Vec<CellGroup>, w: usize, h: usize, cells: &[u16]) -> Dish {
    let mut dish = Dish::from_parts(rules, Vec::<CellData>::new(), groups);
    dish.fill(Cell(WALL));
    for y in 0..h {
        for x in 0..w {
            dish.set_cell(x, y, Cell(cells[y * w + x]));
        }
    }
    // a rebuild lists the anchors in the order of the scan
    dish.rebuild_cache();
    dish
}

fn region(dish: &Dish, w: usize, h: usize) -> Vec<u16> {
    let mut cells = Vec::new();
    for y in 0..h {
        for x in 0..w {
            cells.push(dish.get_cell(x, y).unwrap().0);
        }
    }
    cells
}

#[test]
fn sand_falls() {
    let mut dish = walled(vec![fall()], vec![], 1, 4, &[0, 1, 0, 0]);
    assert_eq!(dish.cache_count(), 1);
    assert_eq!(dish.cached_matches(0), vec![(0, 1)]);
    dish.apply_one_match_with(0, 0, 0, &vec![]);
    assert_eq!(region(&dish, 1, 4), vec![0, 0, 1, 0]);
    assert_eq!(dish.cached_matches(0), vec![(0, 2)]);
}

#[test]
fn sand_piles() {
    let mut dish = walled(vec![fall()], vec![], 3, 3, &[0, 0, 0, 0, 1, 0, 0, 0, 0]);
    for _ in 0..10 {
        dish.apply_one_match();
    }
    assert_eq!(region(&dish, 3, 3), vec![0, 0, 0, 0, 0, 0, 0, 1, 0]);
    assert_eq!(dish.cache_count(), 0);
}

#[test]
fn sand_slides_to_either_side() {
    let cells = [0, 1, 0, 0, 1, 0];
    let mut right = walled(vec![slide()], vec![], 3, 2, &cells);
    assert_eq!(right.cached_matches(0), vec![(1, 0)]);
    assert_eq!(right.cached_matches(1), vec![(1, 0)]);
    right.apply_one_match_with(0, 0, 0, &vec![]);
    assert_eq!(region(&right, 3, 2), vec![0, 0, 0, 0, 1, 1]);
    let mut left = walled(vec![slide()], vec![], 3, 2, &cells);
    left.apply_one_match_with(1, 0, 0, &vec![]);
    assert_eq!(region(&left, 3, 2), vec![0, 0, 0, 1, 1, 0]);
}

#[test]
fn sand_ends_up_at_the_bottom() {
    let mut by_match = walled(vec![fall(), slide()], vec![], 3, 2, &[1, 1, 1, 0, 0, 0]);
    for _ in 0..200 {
        by_match.apply_one_match();
    }
    assert_eq!(region(&by_match, 3, 2), vec![0, 0, 0, 1, 1, 1]);
    assert_eq!(by_match.cache_count(), 0);
    let mut by_location = walled(vec![fall(), slide()], vec![], 3, 2, &[1, 1, 1, 0, 0, 0]);
    for _ in 0..100_000 {
        by_location.try_one_location();
    }
    assert_eq!(region(&by_location, 3, 2), vec![0, 0, 0, 1, 1, 1]);
    // a pile of two topples to one side or the other
    let mut pile = walled(vec![fall(), slide()], vec![], 3, 2, &[0, 1, 0, 0, 1, 0]);
    for _ in 0..50 {
        pile.apply_one_match();
    }
    let toppled = region(&pile, 3, 2);
    assert!(toppled == vec![0, 0, 0, 1, 1, 0] || toppled == vec![0, 0, 0, 0, 1, 1]);
    assert_eq!(pile.cache_count(), 0);
}

fn sinking() -> Rule {
    let mut rule = Rule::from_contents(
        "sink".to_owned(),
        1,
        2,
        vec![
            (RuleCellFrom::One(Cell(1)), RuleCellTo::One(Cell(0))),
            (RuleCellFrom::Group(0), RuleCellTo::One(Cell(1))),
        ],
    )
    .unwrap();
    rule.enabled = true;
    rule
}

fn liquid_or_air() -> Vec<CellGroup> {
    vec![CellGroup { name: "liquid_or_air".to_owned(), void: true, cells: vec![Cell(0), Cell(2)] }]
}

#[test]
fn sand_sinks_into_a_group() {
    // above water
    let mut dish = walled(vec![sinking()], liquid_or_air(), 1, 2, &[1, 2]);
    assert_eq!(dish.cached_matches(0), vec![(0, 0)]);
    dish.apply_one_match();
    assert_eq!(region(&dish, 1, 2), vec![0, 1]);
    assert_eq!(dish.cache_count(), 0);
    // above air
    let mut dish = walled(vec![sinking()], liquid_or_air(), 1, 2, &[1, 0]);
    dish.apply_one_match();
    assert_eq!(region(&dish, 1, 2), vec![0, 1]);
    // above sand
    let mut dish = walled(vec![sinking()], liquid_or_air(), 1, 2, &[1, 1]);
    assert_eq!(dish.cache_count(), 0);
    dish.apply_one_match();
    assert_eq!(region(&dish, 1, 2), vec![1, 1]);
    // above a cell that is not in the group
    let dish = walled(vec![sinking()], liquid_or_air(), 1, 1, &[1]);
    assert_eq!(dish.cache_count(), 0);
}

#[test]
fn sand_sinks_out_of_the_world_through_a_void_group() {
    let mut dish = Dish::from_parts(vec![sinking()], vec![], liquid_or_air());
    dish.fill(Cell(WALL));
    dish.set_cell(3, 31, Cell(1));
    assert_eq!(dish.cached_matches(0), vec![(3, 31)]);
    dish.apply_one_match();
    assert_eq!(dish.get_cell(3, 31), Some(Cell(0)));
    assert_eq!(dish.cache_count(), 0);
    // without the void the outside is not in the group
    let solid = vec![CellGroup { name: "solid".to_owned(), void: false, cells: vec![Cell(0), Cell(2)] }];
    let mut dish = Dish::from_parts(vec![sinking()], vec![], solid);
    dish.set_cell(3, 31, Cell(1));
    assert_eq!(dish.cache_count(), 0);
}

fn swap() -> Rule {
    let mut rule = Rule::from_contents(
        "swap".to_owned(),
        1,
        2,
        vec![(RuleCellFrom::Any, RuleCellTo::Copy(0, 1)), (RuleCellFrom::Any, RuleCellTo::Copy(0, 0))],
    )
    .unwrap();
    rule.enabled = true;
    rule
}

#[test]
fn copies_swap_two_cells() {
    for (a, b) in [(3, 4), (0, 7), (5, 5), (65535, 0)] {
        let mut dish = Dish::from_parts(vec![swap()], vec![], vec![]);
        dish.set_cell(0, 0, Cell(a));
        dish.set_cell(0, 1, Cell(b));
        dish.rebuild_cache();
        // the rule matches everywhere: the scan lists column 0 from row -1 on
        assert_eq!(dish.cached_matches(0)[1], (0, 0));
        dish.apply_one_match_with(0, 1, 0, &vec![]);
        assert_eq!(dish.get_cell(0, 0), Some(Cell(b)));
        assert_eq!(dish.get_cell(0, 1), Some(Cell(a)));
        assert_eq!(dish.get_cell(0, 2), Some(Cell(0)));
    }
}

#[test]
fn copies_across_the_border_write_nothing() {
    let mut dish = Dish::from_parts(vec![swap()], vec![], vec![]);
    dish.fill(Cell(6));
    assert_eq!(dish.cached_matches(0)[0], (0, -1));
    dish.apply_one_match_with(0, 0, 0, &vec![]);
    // at the bottom: the last anchor of column 0 is row 31
    assert_eq!(dish.cached_matches(0)[32], (0, 31));
    dish.apply_one_match_with(0, 32, 0, &vec![]);
    for x in 0..32 {
        for y in 0..32 {
            assert_eq!(dish.get_cell(x, y), Some(Cell(6)));
        }
    }
}

#[test]
fn a_rotated_rule_moves_in_four_directions() {
    let turning = || {
        let mut rule = fall();
        rule.rotate = true;
        rule.generate_variants();
        rule
    };
    assert_eq!(turning().variant_count(), 4);
    let ends = [(5, 6), (5, 4), (4, 5), (6, 5)];
    for (entry, end) in ends.into_iter().enumerate() {
        let mut dish = Dish::from_parts(vec![turning()], vec![], vec![]);
        dish.set_cell(5, 5, Cell(1));
        // every variant is reported at the cell that moves
        for k in 0..4 {
            assert_eq!(dish.cached_matches(k), vec![(5, 5)]);
        }
        dish.apply_one_match_with(entry, 0, 0, &vec![]);
        assert_eq!(dish.get_cell(5, 5), Some(Cell(0)));
        assert_eq!(dish.get_cell(end.0, end.1), Some(Cell(1)));
        assert_eq!(dish.cache_count(), 4);
    }
}
