//! The dish: the world, the rules and groups that act on it, and the cache of every
//! position where a rule matches.

use vstd::prelude::*;
use crate::cache::{anchors, entry_views, RuleCache};
use crate::cell::{group_views, Cell, CellData, CellGroup, GroupView};
use crate::dish::model::{fall_rule, indices, rule_views, slide_rule, total_matches, DishView};
use crate::pattern::{RuleCellFrom, RuleCellTo};
use crate::rule::{Rule, RuleView};
use crate::world::{Chunk, Grid, World, CHUNK_SIZE};

pub mod caching;
pub mod editing;
pub mod model;
pub mod stepping;

verus! {

/// A world with the rules that rewrite it.
#[derive(Debug)]
pub struct Dish {
    world: World,
    rules: Vec<Rule>,
    pub types: Vec<CellData>,
    groups: Vec<CellGroup>,
    cache: Vec<RuleCache>,
    match_cache: Vec<usize>,
    max_rule_width: usize,
    max_rule_height: usize,
}

impl View for Dish {
    type V = DishView;

    closed spec fn view(&self) -> DishView {
        DishView {
            grid: self.world@,
            rules: rule_views(self.rules@),
            types: self.types@,
            groups: group_views(self.groups@),
            cache: entry_views(self.cache@),
            match_cache: indices(self.match_cache@),
            max_rule_width: self.max_rule_width as int,
            max_rule_height: self.max_rule_height as int,
        }
    }
}

impl Dish {
    pub open spec fn wf(&self) -> bool {
        self@.wf()
    }

    /// A dish with the rules by which sand falls and slides, the group of what counts
    /// as empty, and a world of cells 0 and 1, about one in four of them a cell 1.
    pub fn new() -> (dish: Dish)
        ensures
            dish.wf(),
            dish@.cache_fresh(),
            exists|rolls: Seq<u8>|
                rolls.len() == CHUNK_SIZE * CHUNK_SIZE && dish@.grid == #[trigger] Grid::filled(
                    Cell(0),
                ).sprinkled(rolls),
            dish@.rules == seq![fall_rule(), slide_rule()],
            dish@.groups == seq![GroupView { name: "empty"@, void: true, cells: seq![Cell(0)] }],
            dish@.types.len() == 2,
            dish@.types[0].name@ == "air"@,
            dish@.types[0].color@ == seq![0u8, 0u8, 0u8],
            dish@.types[1].name@ == "pink_sand"@,
            dish@.types[1].color@ == seq![255u8, 147u8, 219u8],
    {
        let mut default_rules: Vec<Rule> = Vec::new();
        match Rule::from_contents(
            "fall".to_owned(),
            1,
            2,
            vec![
                (RuleCellFrom::One(Cell(1)), RuleCellTo::One(Cell(0))),
                (RuleCellFrom::One(Cell(0)), RuleCellTo::One(Cell(1))),
            ],
        ) {
            Some(mut rule) => {
                rule.set_enabled(true);
                default_rules.push(rule);
            },
            None => {},
        }
        match Rule::from_contents(
            "slide".to_owned(),
            2,
            2,
            vec![
                (RuleCellFrom::One(Cell(1)), RuleCellTo::One(Cell(0))),
                (RuleCellFrom::Any, RuleCellTo::Keep),
                (RuleCellFrom::One(Cell(1)), RuleCellTo::Keep),
                (RuleCellFrom::One(Cell(0)), RuleCellTo::One(Cell(1))),
            ],
        ) {
            Some(mut rule) => {
                rule.set_enabled(true);
                rule.set_symmetries(true, false, false);
                default_rules.push(rule);
            },
            None => {},
        }

        let cells = vec![Cell(0)];
        assert(cells@ =~= seq![Cell(0)]);
        let groups = vec![CellGroup { name: "empty".to_owned(), void: true, cells }];
        assert(groups@[0]@ == (GroupView { name: "empty"@, void: true, cells: seq![Cell(0)] }));
        let mut new = Dish {
            world: World::from_chunk(Chunk::default().with_random_ones()),
            rules: default_rules,
            types: vec![CellData::new("air", 0, 0, 0), CellData::new("pink_sand", 255, 147, 219)],
            groups,
            cache: Vec::new(),
            match_cache: Vec::new(),
            max_rule_height: 1,
            max_rule_width: 1,
        };
        proof {
            assert(new@.groups =~= seq![GroupView { name: "empty"@, void: true, cells: seq![Cell(0)] }]);
            assert(new@.rules =~= seq![
                RuleView { variants: new@.rules[0].variants, ..fall_rule() },
                RuleView { variants: new@.rules[1].variants, ..slide_rule() },
            ]);
        }
        new.update_all_rules();
        proof {
            assert(new@.rules =~= seq![fall_rule(), slide_rule()]);
        }
        new
    }

    /// A dish with the given rules, cell types and groups and a world of cells 0. The
    /// variants of every rule are derived again.
    pub fn from_parts(rules: Vec<Rule>, types: Vec<CellData>, groups: Vec<CellGroup>) -> (dish: Dish)
        requires
            forall|i: int| 0 <= i < rules@.len() ==> (#[trigger] rules@[i]).wf(),
        ensures
            dish.wf(),
            dish@.cache_fresh(),
            dish@.grid == Grid::filled(Cell(0)),
            dish@.groups == group_views(groups@),
            dish@.types == types@,
            dish@.rules.len() == rules@.len(),
            forall|i: int| 0 <= i < rules@.len() ==> #[trigger] dish@.rules[i] == rules@[i]@.regenerated(),
    {
        let mut new = Dish {
            world: World::default(),
            rules,
            types,
            groups,
            cache: Vec::new(),
            match_cache: Vec::new(),
            max_rule_height: 1,
            max_rule_width: 1,
        };
        new.update_all_rules();
        new
    }

    /// The rules, in order.
    pub fn rules(&self) -> (rules: &Vec<Rule>)
        ensures
            rule_views(rules@) == self@.rules,
    {
        &self.rules
    }

    /// The groups, in order.
    pub fn groups(&self) -> (groups: &Vec<CellGroup>)
        ensures
            group_views(groups@) == self@.groups,
    {
        &self.groups
    }

    /// The cell at (`x`, `y`), or `None` outside the grid.
    pub fn get_cell(&self, x: usize, y: usize) -> (cell: Option<Cell>)
        requires
            self.wf(),
        ensures
            cell == self@.grid.get(x as int, y as int),
    {
        self.world.get_cell(x as i128, y as i128)
    }

    /// The number of matches in the cache, over all rules and variants.
    pub fn cache_count(&self) -> (count: usize)
        requires
            self.wf(),
        ensures
            count == total_matches(self@.cache, self@.cache.len() as int) || (count == usize::MAX
                && total_matches(self@.cache, self@.cache.len() as int) > usize::MAX),
    {
        let mut count: usize = 0;
        let mut i: usize = 0;
        while i < self.cache.len()
            invariant
                i <= self.cache.len(),
                count == total_matches(self@.cache, i as int) || (count == usize::MAX && total_matches(
                    self@.cache,
                    i as int,
                ) > usize::MAX),
            decreases self.cache.len() - i,
        {
            let n = self.cache[i].matches.len();
            assert(self@.cache[i as int].matches.len() == n);
            count = count.saturating_add(n);
            i += 1;
        }
        count
    }

    /// The rule and the variant of each entry of the cache, in order.
    pub fn cache_keys(&self) -> (keys: Vec<(usize, usize)>)
        ensures
            keys@.len() == self@.cache.len(),
            forall|k: int|
                0 <= k < keys@.len() ==> (#[trigger] keys@[k]).0 == self@.cache[k].rule && keys@[k].1
                    == self@.cache[k].variant,
    {
        let mut keys: Vec<(usize, usize)> = Vec::new();
        let mut k: usize = 0;
        while k < self.cache.len()
            invariant
                k <= self.cache.len(),
                keys@.len() == k,
                forall|j: int|
                    0 <= j < k ==> (#[trigger] keys@[j]).0 == self@.cache[j].rule && keys@[j].1
                        == self@.cache[j].variant,
            decreases self.cache.len() - k,
        {
            assert(self@.cache[k as int] == self.cache@[k as int]@);
            keys.push((self.cache[k].rule, self.cache[k].variant));
            k += 1;
        }
        keys
    }

    /// The anchors that entry `index` of the cache lists, in order; none where there
    /// is no such entry.
    pub fn cached_matches(&self, index: usize) -> (matches: Vec<(i128, i128)>)
        ensures
            index < self@.cache.len() ==> anchors(matches@) == self@.cache[index as int].matches,
            index >= self@.cache.len() ==> matches@.len() == 0,
    {
        let mut matches: Vec<(i128, i128)> = Vec::new();
        if index >= self.cache.len() {
            return matches;
        }
        let entry = &self.cache[index];
        assert(self@.cache[index as int] == entry@);
        let mut i: usize = 0;
        while i < entry.matches.len()
            invariant
                i <= entry.matches.len(),
                matches@ == entry.matches@.subrange(0, i as int),
            decreases entry.matches.len() - i,
        {
            matches.push(entry.matches[i]);
            assert(matches@ =~= entry.matches@.subrange(0, i + 1));
            i += 1;
        }
        assert(matches@ =~= entry.matches@);
        matches
    }

    /// The entries of the cache that list a match, in rising order.
    pub fn match_cache(&self) -> (listed: Vec<usize>)
        ensures
            indices(listed@) == self@.match_cache,
    {
        let mut listed: Vec<usize> = Vec::new();
        let mut i: usize = 0;
        while i < self.match_cache.len()
            invariant
                i <= self.match_cache.len(),
                listed@ == self.match_cache@.subrange(0, i as int),
            decreases self.match_cache.len() - i,
        {
            listed.push(self.match_cache[i]);
            assert(listed@ =~= self.match_cache@.subrange(0, i + 1));
            i += 1;
        }
        assert(listed@ =~= self.match_cache@);
        listed
    }
}

} // verus!
