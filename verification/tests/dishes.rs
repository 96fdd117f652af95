use petri::{Cell, CellData, CellGroup, Dish, Rule, RuleCellFrom, RuleCellTo, World, CHUNK_SIZE};
use std::collections::BTreeSet;

const N: i128 = CHUNK_SIZE as i128;

fn rule(name: &str, width: usize, height: usize, contents: Vec<(RuleCellFrom, RuleCellTo)>) -> Rule {
    let mut rule = Rule::from_contents(name.to_owned(), width, height, contents).unwrap();
    rule.enabled = true;
    rule
}

fn fall() -> Rule {
    rule(
        "fall",
        1,
        2,
        vec![
            (RuleCellFrom::One(Cell(1)), RuleCellTo::One(Cell(0))),
            (RuleCellFrom::One(Cell(0)), RuleCellTo::One(Cell(1))),
        ],
    )
}

fn slide() -> Rule {
    let mut rule = rule(
        "slide",
        2,
        2,
        vec![
            (RuleCellFrom::One(Cell(1)), RuleCellTo::One(Cell(0))),
            (RuleCellFrom::Any, RuleCellTo::Keep),
            (RuleCellFrom::One(Cell(1)), RuleCellTo::Keep),
            (RuleCellFrom::One(Cell(0)), RuleCellTo::One(Cell(1))),
        ],
    );
    rule.set_symmetries(true, false, false);
    rule
}

fn anywhere() -> Rule {
    rule("anywhere", 1, 1, vec![(RuleCellFrom::Any, RuleCellTo::Keep)])
}

fn empty_dish(rules: Vec<Rule>) -> Dish {
    Dish::from_parts(rules, Vec::<CellData>::new(), Vec::<CellGroup>::new())
}

fn world_of(dish: &Dish) -> World {
    let mut world = World::default();
    for x in 0..CHUNK_SIZE {
        for y in 0..CHUNK_SIZE {
            world.set_cell(x as i128, y as i128, dish.get_cell(x, y).unwrap());
        }
    }
    world
}

fn sets_of(dish: &Dish) -> Vec<((usize, usize), BTreeSet<(i128, i128)>)> {
    let mut sets: Vec<_> = dish
        .cache_keys()
        .into_iter()
        .enumerate()
        .map(|(k, key)| (key, dish.cached_matches(k).into_iter().collect()))
        .collect();
    sets.sort();
    sets
}

/// Holds the cache against the world, the rules and the groups of the dish.
fn check_cache(dish: &Dish) {
    let world = world_of(dish);
    let keys = dish.cache_keys();
    // one entry for each variant of each enabled rule
    let mut expected = Vec::new();
    for (r, rule) in dish.rules().iter().enumerate() {
        if rule.enabled {
            for v in 0..rule.variant_count() {
                expected.push((r, v));
            }
        }
    }
    let mut sorted = keys.clone();
    sorted.sort();
    assert_eq!(sorted, expected);
    let mut listed = Vec::new();
    let mut total = 0;
    for (k, &(r, v)) in keys.iter().enumerate() {
        let variant = dish.rules()[r].variant(v);
        let (ox, oy) = (variant.origin_x() as i128, variant.origin_y() as i128);
        let matches = dish.cached_matches(k);
        total += matches.len();
        if !matches.is_empty() {
            listed.push(k);
        }
        // every anchor in the cache is a match, and none is listed twice
        for (i, &(ax, ay)) in matches.iter().enumerate() {
            assert!(world.subrule_matches(ax - ox, ay - oy, variant, dish.groups()));
            assert!(!matches[..i].contains(&(ax, ay)));
        }
        // every match in the range of a full scan is in the cache
        let (bx, by) = (variant.width() as i128 - 1, variant.height() as i128 - 1);
        for ax in -bx..N + bx {
            for ay in -by..N + by {
                if world.subrule_matches(ax - ox, ay - oy, variant, dish.groups()) {
                    assert!(matches.contains(&(ax, ay)));
                }
            }
        }
    }
    assert_eq!(dish.match_cache(), listed);
    assert_eq!(dish.cache_count(), total);
}

#[test]
fn new_dish_has_the_default_rules_groups_and_types() {
    let dish = Dish::new();
    assert_eq!(dish.rules().len(), 2);
    let fall = &dish.rules()[0];
    assert_eq!(fall.name, "fall");
    assert!(fall.enabled && !fall.flip_x && !fall.flip_y && !fall.rotate);
    assert_eq!((fall.width(), fall.height()), (1, 2));
    assert_eq!(fall.get(0, 0), (RuleCellFrom::One(Cell(1)), RuleCellTo::One(Cell(0))));
    assert_eq!(fall.get(0, 1), (RuleCellFrom::One(Cell(0)), RuleCellTo::One(Cell(1))));
    assert_eq!(fall.variant_count(), 1);
    let slide = &dish.rules()[1];
    assert_eq!(slide.name, "slide");
    assert!(slide.enabled && slide.flip_x && !slide.flip_y && !slide.rotate);
    assert_eq!((slide.width(), slide.height()), (2, 2));
    assert_eq!(slide.get(0, 0), (RuleCellFrom::One(Cell(1)), RuleCellTo::One(Cell(0))));
    assert_eq!(slide.get(1, 0), (RuleCellFrom::Any, RuleCellTo::Keep));
    assert_eq!(slide.get(0, 1), (RuleCellFrom::One(Cell(1)), RuleCellTo::Keep));
    assert_eq!(slide.get(1, 1), (RuleCellFrom::One(Cell(0)), RuleCellTo::One(Cell(1))));
    assert_eq!(slide.variant_count(), 2);
    assert_eq!(slide.failrate, 0);
    assert_eq!(dish.groups().len(), 1);
    assert_eq!(dish.groups()[0].name, "empty");
    assert!(dish.groups()[0].void);
    assert_eq!(dish.groups()[0].cells, vec![Cell(0)]);
    assert_eq!(dish.types.len(), 2);
    assert_eq!(dish.types[0].name, "air");
    assert_eq!(dish.types[0].color, [0, 0, 0]);
    assert_eq!(dish.types[1].name, "pink_sand");
    assert_eq!(dish.types[1].color, [255, 147, 219]);
}

#[test]
fn new_dish_holds_zeros_and_ones_and_a_fresh_cache() {
    let dish = Dish::new();
    let mut ones = 0;
    for x in 0..CHUNK_SIZE {
        for y in 0..CHUNK_SIZE {
            let cell = dish.get_cell(x, y).unwrap();
            assert!(cell == Cell(0) || cell == Cell(1));
            ones += cell.0 as usize;
        }
    }
    assert!(ones > 100 && ones < 500);
    assert_eq!(dish.cache_keys(), vec![(0, 0), (1, 0), (1, 1)]);
    check_cache(&dish);
}

#[test]
fn from_parts_starts_with_a_world_of_zeros() {
    let mut stale = fall();
    stale.rotate = true;
    let dish = Dish::from_parts(
        vec![stale],
        vec![CellData::new("air", 1, 2, 3)],
        vec![CellGroup { name: "g".to_owned(), void: true, cells: vec![Cell(4)] }],
    );
    for x in 0..CHUNK_SIZE {
        for y in 0..CHUNK_SIZE {
            assert_eq!(dish.get_cell(x, y), Some(Cell(0)));
        }
    }
    // the variants were derived again
    assert_eq!(dish.rules()[0].variant_count(), 4);
    assert_eq!(dish.types[0].name, "air");
    assert_eq!(dish.groups()[0].cells, vec![Cell(4)]);
    assert_eq!(dish.cache_keys(), vec![(0, 0), (0, 1), (0, 2), (0, 3)]);
    assert_eq!(dish.cache_count(), 0);
    check_cache(&dish);
}

#[test]
fn get_cell_outside_the_grid_is_none() {
    let dish = empty_dish(vec![]);
    assert_eq!(dish.get_cell(CHUNK_SIZE, 0), None);
    assert_eq!(dish.get_cell(0, CHUNK_SIZE), None);
    assert_eq!(dish.get_cell(usize::MAX, usize::MAX), None);
    assert_eq!(dish.get_cell(31, 31), Some(Cell(0)));
}

#[test]
fn set_cell_writes_and_repairs_the_cache() {
    let mut dish = empty_dish(vec![fall()]);
    assert_eq!(dish.cache_count(), 0);
    assert_eq!(dish.match_cache(), Vec::<usize>::new());
    dish.set_cell(5, 5, Cell(1));
    assert_eq!(dish.get_cell(5, 5), Some(Cell(1)));
    assert_eq!(dish.cached_matches(0), vec![(5, 5)]);
    assert_eq!(dish.match_cache(), vec![0]);
    dish.set_cell(5, 6, Cell(1));
    assert_eq!(dish.cached_matches(0), vec![(5, 6)]);
    dish.set_cell(5, 7, Cell(2));
    assert_eq!(dish.cached_matches(0), Vec::<(i128, i128)>::new());
    assert_eq!(dish.match_cache(), Vec::<usize>::new());
    check_cache(&dish);
}

#[test]
fn set_cell_outside_the_grid_writes_nothing() {
    let mut dish = empty_dish(vec![fall()]);
    dish.set_cell(3, 3, Cell(1));
    dish.set_cell(CHUNK_SIZE, 3, Cell(1));
    dish.set_cell(3, usize::MAX, Cell(1));
    assert_eq!(dish.cache_count(), 1);
    for x in 0..CHUNK_SIZE {
        for y in 0..CHUNK_SIZE {
            assert_eq!(dish.get_cell(x, y), Some(Cell(((x, y) == (3, 3)) as u16)));
        }
    }
    check_cache(&dish);
}

#[test]
fn sand_at_the_bottom_has_nowhere_to_fall() {
    let mut dish = empty_dish(vec![fall()]);
    dish.set_cell(0, 31, Cell(1));
    assert_eq!(dish.cache_count(), 0);
    dish.set_cell(0, 30, Cell(1));
    assert_eq!(dish.cache_count(), 0);
    dish.set_cell(1, 30, Cell(1));
    assert_eq!(dish.cached_matches(0), vec![(1, 30)]);
}

#[test]
fn fill_rebuilds_the_cache() {
    let mut dish = empty_dish(vec![anywhere(), fall()]);
    dish.set_cell(2, 2, Cell(1));
    dish.fill(Cell(1));
    for x in 0..CHUNK_SIZE {
        for y in 0..CHUNK_SIZE {
            assert_eq!(dish.get_cell(x, y), Some(Cell(1)));
        }
    }
    assert_eq!(dish.cache_keys(), vec![(0, 0), (1, 0)]);
    assert_eq!(dish.cached_matches(0).len(), 32 * 32);
    assert_eq!(dish.cached_matches(1).len(), 0);
    assert_eq!(dish.cache_count(), 1024);
    assert_eq!(dish.match_cache(), vec![0]);
    check_cache(&dish);
}

#[test]
fn a_full_scan_goes_column_by_column() {
    let mut dish = empty_dish(vec![fall()]);
    dish.set_cell(7, 1, Cell(1));
    dish.set_cell(2, 9, Cell(1));
    dish.set_cell(2, 3, Cell(1));
    dish.rebuild_cache();
    assert_eq!(dish.cached_matches(0), vec![(2, 3), (2, 9), (7, 1)]);
}

#[test]
fn a_full_scan_reaches_one_less_than_the_size_beyond_the_grid() {
    // two any-entries side by side match wherever they are laid
    let dish = empty_dish(vec![rule("pair", 2, 1, vec![(RuleCellFrom::Any, RuleCellTo::Keep); 2])]);
    let matches = dish.cached_matches(0);
    assert_eq!(matches.len(), 34 * 32);
    assert_eq!(matches[0], (-1, 0));
    assert_eq!(matches[matches.len() - 1], (32, 31));
}

#[test]
fn update_cache_keeps_what_it_does_not_touch() {
    let mut dish = empty_dish(vec![fall()]);
    dish.set_cell(1, 1, Cell(1));
    dish.set_cell(20, 20, Cell(1));
    assert_eq!(dish.cached_matches(0), vec![(1, 1), (20, 20)]);
    dish.update_cache(20, 20, 1, 1);
    assert_eq!(dish.cached_matches(0), vec![(1, 1), (20, 20)]);
    dish.update_cache(1, 2, 1, 1);
    assert_eq!(dish.cached_matches(0), vec![(20, 20), (1, 1)]);
    dish.update_cache(0, 0, 32, 32);
    assert_eq!(dish.cached_matches(0), vec![(1, 1), (20, 20)]);
    check_cache(&dish);
}

#[test]
fn update_cache_lists_only_new_matches() {
    let mut dish = empty_dish(vec![slide()]);
    dish.set_cell(1, 0, Cell(1));
    dish.set_cell(1, 1, Cell(1));
    dish.rebuild_cache();
    assert_eq!(dish.cache_keys(), vec![(0, 0), (0, 1)]);
    assert_eq!(dish.cached_matches(0), vec![(1, 0)]);
    // the mirrored variant covers columns 0 and 1 and is reported at its origin, column 1
    assert_eq!(dish.cached_matches(1), vec![(1, 0)]);
    // the template at (1, 0) does not cover (0, 0), so the anchor is kept; it lies in
    // the range that is scanned again, and is not listed a second time
    dish.update_cache(0, 0, 1, 1);
    assert_eq!(dish.cached_matches(0), vec![(1, 0)]);
    assert_eq!(dish.cached_matches(1), vec![(1, 0)]);
    assert_eq!(dish.cache_count(), 2);
    check_cache(&dish);
    dish.rebuild_cache();
    assert_eq!(dish.cache_count(), 2);
}

#[test]
fn update_cache_beside_a_match_keeps_it_once() {
    let mut dish = empty_dish(vec![fall()]);
    dish.set_cell(0, 2, Cell(1));
    dish.rebuild_cache();
    assert_eq!(dish.cache_count(), 1);
    assert_eq!(dish.cached_matches(0), vec![(0, 2)]);
    // the sand at (0, 2) and the cell below it do not lie in the rectangle
    dish.update_cache(0, 1, 1, 1);
    assert_eq!(dish.cache_count(), 1);
    assert_eq!(dish.cached_matches(0), vec![(0, 2)]);
    for _ in 0..5 {
        dish.update_cache(0, 0, 3, 2);
        dish.set_cell(1, 1, Cell(0));
    }
    assert_eq!(dish.cached_matches(0), vec![(0, 2)]);
    check_cache(&dish);
}

#[test]
fn update_cache_far_from_the_grid_lists_what_matches_there() {
    let mut dish = empty_dish(vec![anywhere()]);
    assert_eq!(dish.cache_count(), 1024);
    dish.update_cache(40, 40, 1, 1);
    assert_eq!(dish.cache_count(), 1025);
    assert!(dish.cached_matches(0).contains(&(40, 40)));
    dish.update_cache(isize::MIN, isize::MAX, 2, 1);
    assert_eq!(dish.cache_count(), 1027);
    check_cache(&dish);
    dish.rebuild_cache();
    assert_eq!(dish.cache_count(), 1024);
}

#[test]
fn repair_agrees_with_rebuild() {
    let mut dish = Dish::new();
    for step in 0..200usize {
        dish.set_cell((step * 7) % 32, (step * 13) % 32, Cell((step % 3 == 0) as u16));
        dish.apply_one_match();
        dish.try_one_location();
    }
    check_cache(&dish);
    let repaired = sets_of(&dish);
    let count = dish.cache_count();
    dish.rebuild_cache();
    assert_eq!(sets_of(&dish), repaired);
    assert_eq!(dish.cache_count(), count);
    check_cache(&dish);
}

#[test]
fn disabled_rules_have_no_entries() {
    let mut off = fall();
    off.enabled = false;
    let mut dish = empty_dish(vec![off, fall()]);
    dish.set_cell(4, 4, Cell(1));
    assert_eq!(dish.cache_keys(), vec![(1, 0)]);
    assert_eq!(dish.cache_count(), 1);
    check_cache(&dish);
}

#[test]
fn add_rule_caches_the_new_rule() {
    let mut dish = empty_dish(vec![fall()]);
    dish.set_cell(4, 4, Cell(1));
    let mut stale = slide();
    stale.flip_x = false;
    dish.add_rule(stale);
    assert_eq!(dish.rules().len(), 2);
    assert_eq!(dish.rules()[1].name, "slide");
    assert_eq!(dish.rules()[1].variant_count(), 1);
    assert_eq!(dish.cache_keys(), vec![(0, 0), (1, 0)]);
    dish.add_rule(anywhere());
    assert_eq!(dish.cache_keys(), vec![(0, 0), (1, 0), (2, 0)]);
    assert_eq!(dish.cached_matches(2).len(), 1024);
    assert_eq!(dish.match_cache(), vec![0, 2]);
    check_cache(&dish);
}

#[test]
fn remove_rule_rebuilds_the_cache() {
    let mut dish = empty_dish(vec![anywhere(), fall(), slide()]);
    dish.set_cell(4, 4, Cell(1));
    dish.remove_rule(0);
    assert_eq!(dish.rules().len(), 2);
    assert_eq!(dish.rules()[0].name, "fall");
    assert_eq!(dish.cache_keys(), vec![(0, 0), (1, 0), (1, 1)]);
    assert_eq!(dish.cache_count(), 1);
    dish.remove_rule(2);
    assert_eq!(dish.rules().len(), 2);
    dish.remove_rule(1);
    assert_eq!(dish.cache_keys(), vec![(0, 0)]);
    check_cache(&dish);
}

#[test]
fn clone_rule_adds_a_disabled_copy() {
    let mut dish = empty_dish(vec![slide()]);
    dish.clone_rule(0);
    assert_eq!(dish.rules().len(), 2);
    assert_eq!(dish.rules()[1].name, "slide");
    assert!(!dish.rules()[1].enabled);
    assert!(dish.rules()[1].flip_x);
    assert_eq!(dish.rules()[1].variant_count(), 2);
    assert_eq!(dish.cache_keys(), vec![(0, 0), (0, 1)]);
    dish.clone_rule(5);
    assert_eq!(dish.rules().len(), 2);
    check_cache(&dish);
}

#[test]
fn update_rule_renews_the_entries_of_that_rule() {
    let mut dish = empty_dish(vec![fall(), anywhere()]);
    dish.set_cell(4, 4, Cell(1));
    let mut turning = dish.rules()[0].clone();
    turning.rotate = true;
    dish.update_rule(0, turning);
    assert_eq!(dish.rules()[0].variant_count(), 4);
    assert_eq!(dish.cache_keys(), vec![(1, 0), (0, 0), (0, 1), (0, 2), (0, 3)]);
    for k in 1..5 {
        assert_eq!(dish.cached_matches(k), vec![(4, 4)]);
    }
    let mut off = dish.rules()[1].clone();
    off.enabled = false;
    dish.update_rule(1, off);
    assert_eq!(dish.cache_keys(), vec![(0, 0), (0, 1), (0, 2), (0, 3)]);
    dish.update_rule(9, anywhere());
    assert_eq!(dish.rules().len(), 2);
    assert_eq!(dish.cache_keys(), vec![(0, 0), (0, 1), (0, 2), (0, 3)]);
    check_cache(&dish);
}

#[test]
fn update_cache_single_rule_moves_the_entries_to_the_end() {
    let mut dish = empty_dish(vec![fall(), slide(), anywhere()]);
    assert_eq!(dish.cache_keys(), vec![(0, 0), (1, 0), (1, 1), (2, 0)]);
    dish.update_cache_single_rule(1);
    assert_eq!(dish.cache_keys(), vec![(0, 0), (2, 0), (1, 0), (1, 1)]);
    assert_eq!(dish.match_cache(), vec![1]);
    dish.update_cache_single_rule(7);
    assert_eq!(dish.cache_keys(), vec![(0, 0), (2, 0), (1, 0), (1, 1)]);
    dish.cache_last_added_rule();
    assert_eq!(dish.cache_keys(), vec![(0, 0), (1, 0), (1, 1), (2, 0)]);
    check_cache(&dish);
    let mut none = empty_dish(vec![]);
    none.cache_last_added_rule();
    assert_eq!(none.cache_keys(), vec![]);
}

#[test]
fn update_all_rules_rebuilds_in_order() {
    let mut dish = empty_dish(vec![fall(), slide()]);
    dish.update_cache_single_rule(0);
    assert_eq!(dish.cache_keys(), vec![(1, 0), (1, 1), (0, 0)]);
    dish.update_all_rules();
    assert_eq!(dish.cache_keys(), vec![(0, 0), (1, 0), (1, 1)]);
    check_cache(&dish);
}

#[test]
fn groups_change_what_matches() {
    let wet = rule("wet", 1, 1, vec![(RuleCellFrom::Group(0), RuleCellTo::Keep)]);
    let mut dish = empty_dish(vec![wet]);
    assert_eq!(dish.cache_count(), 0);
    dish.add_group(CellGroup { name: "liquid".to_owned(), void: false, cells: vec![Cell(2)] });
    assert_eq!(dish.groups().len(), 1);
    assert_eq!(dish.cache_count(), 0);
    dish.set_cell(3, 3, Cell(2));
    assert_eq!(dish.cached_matches(0), vec![(3, 3)]);
    dish.update_group(
        0,
        CellGroup { name: "liquid or air".to_owned(), void: false, cells: vec![Cell(2), Cell(0)] },
    );
    assert_eq!(dish.groups()[0].name, "liquid or air");
    assert_eq!(dish.cache_count(), 1024);
    dish.update_group(4, CellGroup::default());
    assert_eq!(dish.groups().len(), 1);
    assert_eq!(dish.cache_count(), 1024);
    check_cache(&dish);
}

#[test]
fn cached_matches_of_a_missing_entry_are_none() {
    let dish = empty_dish(vec![anywhere()]);
    assert_eq!(dish.cached_matches(1), vec![]);
    assert_eq!(dish.cached_matches(usize::MAX), vec![]);
}

#[test]
fn cached_step_takes_the_entry_and_match_that_the_rolls_choose() {
    let make = || {
        let mut dish = empty_dish(vec![anywhere(), fall()]);
        dish.remove_rule(0);
        dish.add_rule(slide());
        dish.set_cell(0, 0, Cell(1));
        dish.set_cell(5, 5, Cell(1));
        dish.set_cell(5, 6, Cell(1));
        dish.set_cell(5, 7, Cell(2));
        dish.rebuild_cache();
        dish
    };
    let dish = make();
    assert_eq!(dish.cached_matches(0), vec![(0, 0)]);
    assert_eq!(dish.cached_matches(1), vec![(5, 5)]);
    assert_eq!(dish.cached_matches(2), vec![(5, 5)]);
    assert_eq!(dish.match_cache(), vec![0, 1, 2]);
    // rolls count around: entry 4 % 3 = 1, the slide to the right
    let mut right = make();
    right.apply_one_match_with(4, 7, 0, &vec![]);
    assert_eq!(right.get_cell(5, 5), Some(Cell(0)));
    assert_eq!(right.get_cell(6, 6), Some(Cell(1)));
    let mut left = make();
    left.apply_one_match_with(2, 0, 0, &vec![]);
    assert_eq!(left.get_cell(5, 5), Some(Cell(0)));
    assert_eq!(left.get_cell(4, 6), Some(Cell(1)));
    let mut down = make();
    down.apply_one_match_with(0, 3, 0, &vec![]);
    assert_eq!(down.get_cell(0, 0), Some(Cell(0)));
    assert_eq!(down.get_cell(0, 1), Some(Cell(1)));
    assert_eq!(down.cached_matches(0), vec![(0, 1)]);
    check_cache(&down);
    check_cache(&left);
    check_cache(&right);
}

#[test]
fn cached_step_without_matches_changes_nothing() {
    let mut dish = empty_dish(vec![fall()]);
    dish.apply_one_match_with(3, 3, 0, &vec![]);
    dish.apply_one_match();
    dish.try_one_location();
    dish.try_one_location_with(1, 2, 3, 0, &vec![]);
    assert_eq!(dish.cache_count(), 0);
    for x in 0..CHUNK_SIZE {
        for y in 0..CHUNK_SIZE {
            assert_eq!(dish.get_cell(x, y), Some(Cell(0)));
        }
    }
    let mut none = empty_dish(vec![]);
    none.apply_one_match();
    none.try_one_location();
    assert_eq!(none.cache_keys(), vec![]);
}

#[test]
fn sampled_step_looks_at_the_widened_grid() {
    // the widest variant is 1, the highest 2: columns 0 to 31, rows -1 to 32
    let mut dish = empty_dish(vec![fall()]);
    dish.set_cell(3, 4, Cell(1));
    dish.try_one_location_with(3, 4, 0, 0, &vec![]);
    assert_eq!(dish.get_cell(3, 4), Some(Cell(1)));
    dish.try_one_location_with(35, 5, 0, 0, &vec![]);
    assert_eq!(dish.get_cell(3, 4), Some(Cell(0)));
    assert_eq!(dish.get_cell(3, 5), Some(Cell(1)));
    dish.try_one_location_with(3, 34 + 6, 9, 0, &vec![]);
    assert_eq!(dish.get_cell(3, 5), Some(Cell(0)));
    assert_eq!(dish.get_cell(3, 6), Some(Cell(1)));
    check_cache(&dish);
}

#[test]
fn sampled_step_chooses_among_the_variants_listed_there() {
    let spin = || {
        let mut turning = fall();
        turning.set_symmetries(false, false, true);
        let mut dish = empty_dish(vec![turning]);
        dish.set_cell(5, 5, Cell(1));
        dish
    };
    // widest and highest variant 2: columns and rows -1 to 32
    let ends = [(5, 6), (5, 4), (4, 5), (6, 5)];
    for (choice, end) in ends.into_iter().enumerate() {
        let mut dish = spin();
        dish.try_one_location_with(6, 6, choice + 4, 0, &vec![]);
        assert_eq!(dish.get_cell(5, 5), Some(Cell(0)));
        assert_eq!(dish.get_cell(end.0, end.1), Some(Cell(1)));
        check_cache(&dish);
    }
}

#[test]
fn sampled_step_chooses_the_same_after_a_repair() {
    // at (1, 0) the slide to the right and the slide to the left match, each once
    let mut dish = empty_dish(vec![slide(), fall()]);
    dish.set_cell(1, 0, Cell(1));
    dish.set_cell(1, 1, Cell(1));
    dish.rebuild_cache();
    dish.update_cache(0, 0, 1, 1);
    assert_eq!(dish.cached_matches(0), vec![(1, 0)]);
    assert_eq!(dish.cached_matches(1), vec![(1, 0)]);
    dish.try_one_location_with(2, 1, 1, 0, &vec![]);
    assert_eq!(dish.get_cell(1, 0), Some(Cell(0)));
    assert_eq!(dish.get_cell(0, 1), Some(Cell(1)));
    let mut other = empty_dish(vec![slide(), fall()]);
    other.set_cell(1, 0, Cell(1));
    other.set_cell(1, 1, Cell(1));
    other.rebuild_cache();
    other.try_one_location_with(2, 1, 1, 0, &vec![]);
    assert_eq!(other.get_cell(1, 0), Some(Cell(0)));
    assert_eq!(other.get_cell(0, 1), Some(Cell(1)));
    let mut right = empty_dish(vec![slide(), fall()]);
    right.set_cell(1, 0, Cell(1));
    right.set_cell(1, 1, Cell(1));
    right.try_one_location_with(2, 1, 2, 0, &vec![]);
    assert_eq!(right.get_cell(1, 0), Some(Cell(0)));
    assert_eq!(right.get_cell(2, 1), Some(Cell(1)));
}

#[test]
fn update_match_cache_changes_nothing_in_a_settled_dish() {
    let mut dish = empty_dish(vec![fall(), slide(), anywhere()]);
    dish.set_cell(4, 4, Cell(1));
    assert_eq!(dish.match_cache(), vec![0, 3]);
    let keys = dish.cache_keys();
    let count = dish.cache_count();
    dish.update_match_cache();
    assert_eq!(dish.match_cache(), vec![0, 3]);
    assert_eq!(dish.cache_keys(), keys);
    assert_eq!(dish.cache_count(), count);
    check_cache(&dish);
}

#[test]
fn a_second_rebuild_changes_nothing() {
    let mut dish = Dish::new();
    dish.rebuild_cache();
    let keys = dish.cache_keys();
    let lists: Vec<_> = (0..keys.len()).map(|k| dish.cached_matches(k)).collect();
    let listed = dish.match_cache();
    dish.rebuild_cache();
    assert_eq!(dish.cache_keys(), keys);
    assert_eq!((0..keys.len()).map(|k| dish.cached_matches(k)).collect::<Vec<_>>(), lists);
    assert_eq!(dish.match_cache(), listed);
}

#[test]
fn a_rule_that_gives_up_changes_nothing() {
    let mut failing = fall();
    failing.failrate = 255;
    let mut dish = empty_dish(vec![failing]);
    dish.set_cell(2, 2, Cell(1));
    for roll in 0..255u8 {
        dish.apply_one_match_with(0, 0, roll, &vec![]);
        dish.try_one_location_with(2, 3, 0, roll, &vec![]);
        assert_eq!(dish.get_cell(2, 2), Some(Cell(1)));
        assert_eq!(dish.get_cell(2, 3), Some(Cell(0)));
        assert_eq!(dish.cached_matches(0), vec![(2, 2)]);
    }
    // the highest roll is not below the fail rate
    dish.apply_one_match_with(0, 0, 255, &vec![]);
    assert_eq!(dish.get_cell(2, 2), Some(Cell(0)));
    assert_eq!(dish.get_cell(2, 3), Some(Cell(1)));
}

#[test]
fn a_rule_with_fail_rate_one_gives_up_on_roll_zero_only() {
    let mut failing = fall();
    failing.failrate = 1;
    let mut dish = empty_dish(vec![failing]);
    dish.set_cell(2, 2, Cell(1));
    dish.apply_one_match_with(0, 0, 0, &vec![]);
    assert_eq!(dish.get_cell(2, 2), Some(Cell(1)));
    dish.apply_one_match_with(0, 0, 1, &vec![]);
    assert_eq!(dish.get_cell(2, 2), Some(Cell(0)));
}

#[test]
fn random_steps_keep_rolling_for_group_writes() {
    let scatter = rule(
        "scatter",
        1,
        1,
        vec![(RuleCellFrom::One(Cell(0)), RuleCellTo::GroupRandom(0))],
    );
    let mut dish = Dish::from_parts(
        vec![scatter],
        vec![],
        vec![CellGroup { name: "colours".to_owned(), void: false, cells: vec![Cell(1), Cell(2), Cell(3)] }],
    );
    for _ in 0..1024 {
        dish.apply_one_match();
    }
    assert_eq!(dish.cache_count(), 0);
    let mut seen = [0usize; 4];
    for x in 0..CHUNK_SIZE {
        for y in 0..CHUNK_SIZE {
            seen[dish.get_cell(x, y).unwrap().0 as usize] += 1;
        }
    }
    // every cell was rewritten once, to one of the group; with picks that are all
    // the same only one cell of the group would be seen
    assert_eq!(seen[0], 0);
    assert!(seen[1] > 100 && seen[2] > 100 && seen[3] > 100);
    check_cache(&dish);
}

#[test]
fn random_steps_keep_the_cache_in_step() {
    let mut dish = Dish::new();
    for _ in 0..500 {
        dish.apply_one_match();
    }
    check_cache(&dish);
    for _ in 0..5000 {
        dish.try_one_location();
    }
    check_cache(&dish);
}

#[test]
fn random_steps_give_up_about_as_often_as_the_fail_rate_says() {
    let mut blink = rule("blink", 1, 1, vec![(RuleCellFrom::Any, RuleCellTo::One(Cell(1)))]);
    blink.failrate = 128;
    let mut dish = empty_dish(vec![blink]);
    let mut applied = 0;
    for _ in 0..400 {
        dish.fill(Cell(0));
        dish.apply_one_match();
        let ones: usize = (0..CHUNK_SIZE)
            .map(|x| (0..CHUNK_SIZE).filter(|&y| dish.get_cell(x, y) == Some(Cell(1))).count())
            .sum();
        assert!(ones <= 1);
        applied += ones;
    }
    // half of the steps give up; never or always would mean that the roll was not drawn
    assert!(applied > 120 && applied < 280);
}
