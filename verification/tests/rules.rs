use petri::{Cell, Rule, RuleCellFrom, RuleCellTo, SubRule, Symmetry};

const A: (RuleCellFrom, RuleCellTo) = (RuleCellFrom::One(Cell(1)), RuleCellTo::One(Cell(2)));
const B: (RuleCellFrom, RuleCellTo) = (RuleCellFrom::Group(0), RuleCellTo::Copy(0, 0));
const BLANK: (RuleCellFrom, RuleCellTo) = (RuleCellFrom::Any, RuleCellTo::Keep);

fn rule(width: usize, height: usize, contents: Vec<(RuleCellFrom, RuleCellTo)>) -> Rule {
    Rule::from_contents("test".to_owned(), width, height, contents).unwrap()
}

fn base_entries(rule: &Rule) -> Vec<(RuleCellFrom, RuleCellTo)> {
    let mut entries = Vec::new();
    for y in 0..rule.height() {
        for x in 0..rule.width() {
            entries.push(rule.get(x, y));
        }
    }
    entries
}

/// The 2 by 2 rule whose entries all differ.
fn lopsided() -> Rule {
    rule(
        2,
        2,
        (0..4).map(|n| (RuleCellFrom::One(Cell(n)), RuleCellTo::Keep)).collect(),
    )
}

fn holds(rule: &Rule, sub: &SubRule) -> bool {
    (0..rule.variant_count()).any(|i| rule.variant(i).same_as(sub))
}

#[test]
fn new_rule_is_disabled_and_blank() {
    let rule = Rule::new();
    assert_eq!(rule.name, "new rule");
    assert!(!rule.enabled);
    assert!(!rule.flip_x);
    assert!(!rule.flip_y);
    assert!(!rule.rotate);
    assert_eq!(rule.failrate, 0);
    assert_eq!(rule.width(), 1);
    assert_eq!(rule.height(), 1);
    assert_eq!(rule.get(0, 0), BLANK);
    assert_eq!(rule.variant_count(), 1);
    assert!(rule.variant(0).same_as(&SubRule::new()));
    assert!(!rule.is_enabled());
    assert_eq!(rule.fail_rate(), 0);
}

#[test]
fn rule_from_contents_wants_one_entry_per_position() {
    assert!(Rule::from_contents("r".to_owned(), 2, 2, vec![A; 3]).is_none());
    assert!(Rule::from_contents("r".to_owned(), 0, 2, vec![]).is_none());
    let rule = Rule::from_contents("r".to_owned(), 2, 1, vec![A, B]).unwrap();
    assert_eq!(rule.name, "r");
    assert!(!rule.enabled);
    assert_eq!((rule.width(), rule.height()), (2, 1));
    assert_eq!(base_entries(&rule), vec![A, B]);
    assert_eq!(rule.variant_count(), 1);
    assert!(rule.variant(0).same_as(rule.base()));
}

#[test]
fn get_outside_the_base_is_blank() {
    let rule = rule(2, 1, vec![A, B]);
    assert_eq!(rule.get(2, 0), BLANK);
    assert_eq!(rule.get(0, 1), BLANK);
}

#[test]
fn set_from_and_set_to_regenerate_variants() {
    let mut rule = rule(2, 1, vec![BLANK, BLANK]);
    rule.flip_x = true;
    assert_eq!(rule.variant_count(), 1);
    rule.set_from(0, 0, RuleCellFrom::One(Cell(1)));
    assert_eq!(rule.get(0, 0), (RuleCellFrom::One(Cell(1)), RuleCellTo::Keep));
    assert_eq!(rule.variant_count(), 2);
    assert_eq!(rule.variant(1).get(1, 0), (RuleCellFrom::One(Cell(1)), RuleCellTo::Keep));
    rule.set_to(1, 0, RuleCellTo::One(Cell(3)));
    assert_eq!(rule.get(1, 0), (RuleCellFrom::Any, RuleCellTo::One(Cell(3))));
    assert_eq!(rule.variant(1).get(0, 0), (RuleCellFrom::Any, RuleCellTo::One(Cell(3))));
    // outside the base only the variants are derived again
    rule.set_from(5, 5, RuleCellFrom::Group(1));
    assert_eq!(rule.variant_count(), 2);
}

#[test]
fn get_mut_leaves_the_variants() {
    let mut rule = rule(2, 1, vec![BLANK, BLANK]);
    rule.flip_x = true;
    *rule.get_mut(0, 0) = A;
    assert_eq!(rule.get(0, 0), A);
    assert_eq!(rule.variant_count(), 1);
    rule.generate_variants();
    assert_eq!(rule.variant_count(), 2);
}

#[test]
fn setters_match_the_fields() {
    let mut rule = lopsided();
    rule.set_enabled(true);
    assert!(rule.enabled);
    assert!(rule.is_enabled());
    rule.set_symmetries(true, false, true);
    assert!(rule.flip_x && !rule.flip_y && rule.rotate);
    assert_eq!(rule.variant_count(), 8);
    rule.set_symmetries(false, false, false);
    assert_eq!(rule.variant_count(), 1);
    rule.failrate = 9;
    assert_eq!(rule.fail_rate(), 9);
    rule.name = "turning".to_owned();
    rule.flip_x = false;
    rule.flip_y = true;
    rule.rotate = false;
    assert_eq!(rule.name(), "turning");
    assert!(!rule.flips_x() && rule.flips_y() && !rule.rotates());
    rule.rotate = true;
    assert!(rule.rotates());
}

#[test]
fn extend_right_and_down_add_blank_entries_after() {
    let mut wide = rule(1, 1, vec![A]);
    wide.resize(Rule::EXTEND_RIGHT);
    assert_eq!((wide.width(), wide.height()), (2, 1));
    assert_eq!(base_entries(&wide), vec![A, BLANK]);
    let mut tall = rule(1, 1, vec![A]);
    tall.resize(Rule::EXTEND_DOWN);
    assert_eq!((tall.width(), tall.height()), (1, 2));
    assert_eq!(base_entries(&tall), vec![A, BLANK]);
}

#[test]
fn extend_left_and_up_add_blank_entries_before() {
    let mut wide = rule(1, 1, vec![A]);
    wide.resize(Rule::EXTEND_LEFT);
    assert_eq!((wide.width(), wide.height()), (2, 1));
    assert_eq!(base_entries(&wide), vec![BLANK, A]);
    let mut tall = rule(1, 1, vec![A]);
    tall.resize(Rule::EXTEND_UP);
    assert_eq!((tall.width(), tall.height()), (1, 2));
    assert_eq!(base_entries(&tall), vec![BLANK, A]);
}

#[test]
fn shrink_drops_a_side() {
    let mut left = rule(2, 1, vec![A, B]);
    left.resize(Rule::SHRINK_LEFT);
    assert_eq!(base_entries(&left), vec![B]);
    let mut right = rule(2, 1, vec![A, B]);
    right.resize(Rule::SHRINK_RIGHT);
    assert_eq!(base_entries(&right), vec![A]);
    let mut up = rule(1, 2, vec![A, B]);
    up.resize(Rule::SHRINK_UP);
    assert_eq!(base_entries(&up), vec![B]);
    let mut down = rule(1, 2, vec![A, B]);
    down.resize(Rule::SHRINK_DOWN);
    assert_eq!(base_entries(&down), vec![A]);
}

#[test]
fn shrink_below_one_changes_nothing() {
    let mut rule = rule(1, 1, vec![A]);
    rule.resize(Rule::SHRINK_LEFT);
    rule.resize(Rule::SHRINK_UP);
    rule.resize((-5, 0, 0, 0));
    assert_eq!((rule.width(), rule.height()), (1, 1));
    assert_eq!(base_entries(&rule), vec![A]);
}

#[test]
fn resize_beyond_what_a_word_can_count_changes_nothing() {
    let mut rule = rule(1, 2, vec![A, B]);
    rule.resize((isize::MAX, isize::MAX, 0, 0));
    assert_eq!((rule.width(), rule.height()), (1, 2));
    assert_eq!(base_entries(&rule), vec![A, B]);
}

#[test]
fn resize_reads_the_old_entries_from_the_offset() {
    let mut rule = lopsided();
    // one wider and one lower, reading from one to the right and one up
    rule.resize((1, 1, 1, -1));
    assert_eq!((rule.width(), rule.height()), (3, 3));
    let cell = |n| (RuleCellFrom::One(Cell(n)), RuleCellTo::Keep);
    assert_eq!(
        base_entries(&rule),
        vec![BLANK, BLANK, BLANK, cell(1), BLANK, BLANK, cell(3), BLANK, BLANK]
    );
}

#[test]
fn resize_regenerates_variants() {
    let mut rule = rule(1, 1, vec![A]);
    rule.flip_x = true;
    rule.generate_variants();
    assert_eq!(rule.variant_count(), 1);
    rule.resize(Rule::EXTEND_RIGHT);
    assert_eq!(rule.variant_count(), 2);
    assert_eq!(rule.variant(1).get(1, 0), A);
}

#[test]
fn resize_constants_are_as_documented() {
    assert_eq!(Rule::EXTEND_LEFT, (1, 0, -1, 0));
    assert_eq!(Rule::EXTEND_RIGHT, (1, 0, 0, 0));
    assert_eq!(Rule::EXTEND_UP, (0, 1, 0, -1));
    assert_eq!(Rule::EXTEND_DOWN, (0, 1, 0, 0));
    assert_eq!(Rule::SHRINK_LEFT, (-1, 0, 1, 0));
    assert_eq!(Rule::SHRINK_RIGHT, (-1, 0, 0, 0));
    assert_eq!(Rule::SHRINK_UP, (0, -1, 0, 1));
    assert_eq!(Rule::SHRINK_DOWN, (0, -1, 0, 0));
}

#[test]
fn max_width_and_height_are_over_the_variants() {
    let mut rule = rule(3, 1, vec![A, B, BLANK]);
    assert_eq!((rule.max_width(), rule.max_height()), (3, 1));
    rule.rotate = true;
    rule.generate_variants();
    assert_eq!((rule.max_width(), rule.max_height()), (3, 3));
}

#[test]
fn mirrored_origin_tells_variants_apart() {
    // the entries are their own mirror image, but the origin moves to the other end
    let mut rule = rule(2, 1, vec![BLANK, BLANK]);
    rule.flip_x = true;
    rule.generate_variants();
    assert_eq!(rule.variant_count(), 2);
    assert_eq!(rule.variant(1).origin_x(), 1);
}

#[test]
fn symmetric_rule_has_one_variant() {
    let mut rule = Rule::new();
    rule.flip_x = true;
    rule.flip_y = true;
    rule.rotate = true;
    rule.generate_variants();
    assert_eq!(rule.variant_count(), 1);
}

#[test]
fn each_flag_adds_its_images() {
    let count = |flip_x, flip_y, rotate| {
        let mut rule = lopsided();
        rule.flip_x = flip_x;
        rule.flip_y = flip_y;
        rule.rotate = rotate;
        rule.generate_variants();
        rule.variant_count()
    };
    assert_eq!(count(false, false, false), 1);
    assert_eq!(count(true, false, false), 2);
    assert_eq!(count(false, true, false), 2);
    assert_eq!(count(true, true, false), 4);
    assert_eq!(count(false, false, true), 4);
    assert_eq!(count(true, false, true), 8);
    assert_eq!(count(false, true, true), 8);
    assert_eq!(count(true, true, true), 8);
}

#[test]
fn variants_come_in_the_order_of_the_symmetries() {
    let mut rule = lopsided();
    rule.flip_x = true;
    rule.flip_y = true;
    rule.generate_variants();
    let base = rule.base().clone();
    assert!(rule.variant(0).same_as(&base));
    assert!(rule.variant(1).same_as(&base.transformed(Symmetry::FlipX)));
    assert!(rule.variant(2).same_as(&base.transformed(Symmetry::FlipY)));
    assert!(rule
        .variant(3)
        .same_as(&base.transformed(Symmetry::FlipX).transformed(Symmetry::FlipY)));
}

#[test]
fn generate_variants_twice_changes_nothing() {
    let mut rule = lopsided();
    rule.flip_x = true;
    rule.rotate = true;
    rule.generate_variants();
    let first: Vec<SubRule> = (0..rule.variant_count()).map(|i| rule.variant(i).clone()).collect();
    rule.generate_variants();
    assert_eq!(rule.variant_count(), first.len());
    for (i, sub) in first.iter().enumerate() {
        assert!(rule.variant(i).same_as(sub));
    }
}

#[test]
fn all_symmetries_close_the_variants() {
    let mut rule = rule(
        3,
        2,
        vec![A, B, BLANK, (RuleCellFrom::Any, RuleCellTo::Copy(2, 0)), A, A],
    );
    rule.flip_x = true;
    rule.flip_y = true;
    rule.rotate = true;
    rule.generate_variants();
    assert!(rule.variant_count() <= 8);
    assert_eq!(rule.variant_count(), 8);
    for i in 0..rule.variant_count() {
        for t in [Symmetry::FlipX, Symmetry::FlipY, Symmetry::Rotate180, Symmetry::Rotate90] {
            assert!(holds(&rule, &rule.variant(i).transformed(t)));
        }
        for j in 0..i {
            assert!(!rule.variant(i).same_as(rule.variant(j)));
        }
    }
}

#[test]
fn cloned_rule_is_the_same_rule() {
    let mut rule = lopsided();
    rule.name = "first".to_owned();
    rule.enabled = true;
    rule.failrate = 3;
    rule.set_symmetries(true, false, false);
    let copy = rule.clone();
    assert_eq!(copy.name, "first");
    assert!(copy.enabled && copy.flip_x && !copy.flip_y && !copy.rotate);
    assert_eq!(copy.failrate, 3);
    assert_eq!(base_entries(&copy), base_entries(&rule));
    assert_eq!(copy.variant_count(), 2);
    assert!(copy.variant(1).same_as(rule.variant(1)));
}
