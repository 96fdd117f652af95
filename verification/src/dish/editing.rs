//! Editing a dish: its cells, its rules and its groups.

use vstd::prelude::*;
use crate::cell::{Cell, CellGroup};
use crate::dish::model::{
    lemma_disabled_rule_changes_nothing, lemma_other_rules_stay_settled, DishView,
};
use crate::dish::Dish;
use crate::matching::Rect;
use crate::rule::{Rule, RuleView};
use crate::world::Grid;

verus! {

impl Dish {
    /// Writes `cell` at (`x`, `y`) and repairs the cache around that position. Outside
    /// the grid nothing is written, and the cache is repaired all the same.
    pub fn set_cell(&mut self, x: usize, y: usize, cell: Cell)
        requires
            old(self).wf(),
        ensures
            final(self).wf(),
            final(self)@.repaired_from(
                DishView { grid: old(self)@.grid.with_cell(x as int, y as int, cell), ..old(self)@ },
                Rect { x: x as int, y: y as int, w: 1, h: 1 },
            ),
    {
        let ghost was = self@.grid;
        self.world.set_cell(x as i128, y as i128, cell);
        self.repair(x as i128, y as i128, 1, 1, Ghost(was));
    }

    /// Fills the world with `cell` and rebuilds the cache.
    pub fn fill(&mut self, cell: Cell)
        requires
            old(self).wf(),
        ensures
            final(self).wf(),
            final(self)@.cache_fresh(),
            final(self)@.grid == Grid::filled(cell),
            final(self)@.rules == old(self)@.rules,
            final(self)@.types == old(self)@.types,
            final(self)@.groups == old(self)@.groups,
    {
        self.world.fill(cell);
        self.rebuild_cache();
    }

    /// Adds a rule at the end, with its variants derived again, and puts its entries
    /// into the cache.
    pub fn add_rule(&mut self, rule: Rule)
        requires
            old(self).wf(),
            rule.wf(),
        ensures
            final(self).wf(),
            final(self)@.grid == old(self)@.grid,
            final(self)@.types == old(self)@.types,
            final(self)@.groups == old(self)@.groups,
            final(self)@.rules == old(self)@.rules.push(rule@.regenerated()),
            (DishView { rules: final(self)@.rules, ..old(self)@ }).with_entries_of(
                final(self)@.cache,
                old(self)@.rules.len() as int,
            ),
    {
        let ghost before = self@;
        let mut rule = rule;
        rule.generate_variants();
        self.rules.push(rule);
        proof {
            let mid = self@;
            assert(mid.rules =~= before.rules.push(rule@));
            assert(mid == (DishView { rules: mid.rules, ..before }));
            assert forall|i: int| 0 <= i < mid.rules.len() implies (#[trigger] mid.rules[i]).wf()
                && mid.rules[i].is_current() by {
                if i < before.rules.len() {
                    assert(mid.rules[i] == before.rules[i]);
                }
            }
            lemma_other_rules_stay_settled(before, mid, before.rules.len() as int);
        }
        self.cache_last_added_rule();
    }

    /// Takes the rule at `index` out and rebuilds the cache; nothing where there is no
    /// such rule.
    pub fn remove_rule(&mut self, index: usize)
        requires
            old(self).wf(),
        ensures
            final(self).wf(),
            index >= old(self)@.rules.len() ==> final(self)@ == old(self)@,
            index < old(self)@.rules.len() ==> {
                &&& final(self)@.cache_fresh()
                &&& final(self)@.grid == old(self)@.grid
                &&& final(self)@.types == old(self)@.types
                &&& final(self)@.groups == old(self)@.groups
                &&& final(self)@.rules == old(self)@.rules.remove(index as int)
            },
    {
        if index >= self.rules.len() {
            return;
        }
        let ghost before = self@;
        self.rules.remove(index);
        proof {
            assert(self@.rules =~= before.rules.remove(index as int));
            assert forall|i: int| 0 <= i < self@.rules.len() implies (#[trigger] self@.rules[i]).wf()
                && self@.rules[i].is_current() by {
                if i < index {
                    assert(self@.rules[i] == before.rules[i]);
                } else {
                    assert(self@.rules[i] == before.rules[i + 1]);
                }
            }
        }
        self.rebuild_cache();
    }

    /// Adds a disabled copy of the rule at `index` at the end; nothing where there is
    /// no such rule.
    pub fn clone_rule(&mut self, index: usize)
        requires
            old(self).wf(),
        ensures
            final(self).wf(),
            index >= old(self)@.rules.len() ==> final(self)@ == old(self)@,
            index < old(self)@.rules.len() ==> final(self)@ == (DishView {
                rules: old(self)@.rules.push(
                    RuleView { enabled: false, ..old(self)@.rules[index as int] },
                ),
                ..old(self)@
            }),
    {
        if index >= self.rules.len() {
            return;
        }
        let ghost before = self@;
        assert(self.rules@[index as int]@ == before.rules[index as int]);
        let mut new_rule = self.rules[index].clone();
        new_rule.set_enabled(false);
        self.rules.push(new_rule);
        proof {
            let mid = self@;
            assert(mid.rules =~= before.rules.push(new_rule@));
            assert(mid == (DishView { rules: mid.rules, ..before }));
            assert(before.rules[index as int].wf() && before.rules[index as int].is_current());
            assert forall|i: int| 0 <= i < mid.rules.len() implies (#[trigger] mid.rules[i]).wf()
                && mid.rules[i].is_current() by {
                if i < before.rules.len() {
                    assert(mid.rules[i] == before.rules[i]);
                }
            }
            lemma_other_rules_stay_settled(before, mid, before.rules.len() as int);
        }
        self.cache_last_added_rule();
        proof {
            assert(self@.cache =~= before.cache);
            assert(self@.rules.drop_last() =~= before.rules);
            lemma_disabled_rule_changes_nothing(before, self@);
        }
    }

    /// Puts `rule` in the place of the rule at `index`, with its variants derived
    /// again, and renews the entries of that rule in the cache; nothing where there is
    /// no such rule.
    pub fn update_rule(&mut self, index: usize, rule: Rule)
        requires
            old(self).wf(),
            rule.wf(),
        ensures
            final(self).wf(),
            index >= old(self)@.rules.len() ==> final(self)@ == old(self)@,
            index < old(self)@.rules.len() ==> {
                &&& final(self)@.grid == old(self)@.grid
                &&& final(self)@.types == old(self)@.types
                &&& final(self)@.groups == old(self)@.groups
                &&& final(self)@.rules == old(self)@.rules.update(index as int, rule@.regenerated())
                &&& (DishView { rules: final(self)@.rules, ..old(self)@ }).recached(
                    final(self)@.cache,
                    index as int,
                )
            },
    {
        if index >= self.rules.len() {
            return;
        }
        let ghost before = self@;
        let mut rule = rule;
        rule.generate_variants();
        self.rules.set(index, rule);
        proof {
            let mid = self@;
            assert(mid.rules =~= before.rules.update(index as int, rule@));
            assert(mid == (DishView { rules: mid.rules, ..before }));
            assert forall|i: int| 0 <= i < mid.rules.len() implies (#[trigger] mid.rules[i]).wf()
                && mid.rules[i].is_current() by {
                if i != index {
                    assert(mid.rules[i] == before.rules[i]);
                }
            }
            lemma_other_rules_stay_settled(before, mid, index as int);
        }
        self.update_cache_single_rule(index);
    }

    /// Adds a group at the end and rebuilds the cache.
    pub fn add_group(&mut self, group: CellGroup)
        requires
            old(self).wf(),
        ensures
            final(self).wf(),
            final(self)@.cache_fresh(),
            final(self)@.grid == old(self)@.grid,
            final(self)@.rules == old(self)@.rules,
            final(self)@.types == old(self)@.types,
            final(self)@.groups == old(self)@.groups.push(group@),
    {
        let ghost before = self@;
        self.groups.push(group);
        assert(self@.groups =~= before.groups.push(group@));
        self.rebuild_cache();
    }

    /// Puts `group` in the place of the group at `index` and rebuilds the cache;
    /// nothing where there is no such group.
    pub fn update_group(&mut self, index: usize, group: CellGroup)
        requires
            old(self).wf(),
        ensures
            final(self).wf(),
            index >= old(self)@.groups.len() ==> final(self)@ == old(self)@,
            index < old(self)@.groups.len() ==> {
                &&& final(self)@.cache_fresh()
                &&& final(self)@.grid == old(self)@.grid
                &&& final(self)@.rules == old(self)@.rules
                &&& final(self)@.types == old(self)@.types
                &&& final(self)@.groups == old(self)@.groups.update(index as int, group@)
            },
    {
        if index >= self.groups.len() {
            return;
        }
        let ghost before = self@;
        self.groups.set(index, group);
        assert(self@.groups =~= before.groups.update(index as int, group@));
        self.rebuild_cache();
    }
}

} // verus!
