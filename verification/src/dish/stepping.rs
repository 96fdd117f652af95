//! The steps of the simulation: choosing a match and applying it.

use vstd::prelude::*;
use crate::apply::{aborts, applied, draws, gives_up, lemma_applied_is_local};
use crate::cache::{all_reachable, holds_anchor};
use crate::chance::{random_byte, random_index};
use crate::dish::model::{hits_at, lists, pairs, DishView};
use crate::dish::Dish;
use crate::matching::reachable;
use crate::pattern::{lemma_position_index, RuleCellTo};
use crate::world::CHUNK_SIZE;

verus! {

impl Dish {
    /// Applies variant `variant_index` of rule `rule_index` at anchor (`x`, `y`), unless
    /// the roll makes the rule give up. The cache is left as it was.
    fn apply_rule(
        &mut self,
        x: i128,
        y: i128,
        rule_index: usize,
        variant_index: usize,
        fail_roll: u8,
        picks: &Vec<usize>,
    ) -> (applied_it: bool)
        requires
            old(self)@.grid.wf(),
            old(self)@.rules_ok(),
            lists(old(self)@.rules, rule_index as int, variant_index as int),
            reachable((x as int, y as int)),
        ensures
            applied_it == !aborts(old(self)@.rules[rule_index as int].failrate, fail_roll),
            !applied_it ==> final(self)@ == old(self)@,
            applied_it ==> final(self)@ == (DishView {
                grid: applied(
                    old(self)@.grid,
                    old(self)@.groups,
                    old(self)@.rules[rule_index as int].variants[variant_index as int],
                    x - old(self)@.rules[rule_index as int].variants[variant_index as int].origin_x,
                    y - old(self)@.rules[rule_index as int].variants[variant_index as int].origin_y,
                    picks@,
                ),
                ..old(self)@
            }),
    {
        let rule = &self.rules[rule_index];
        assert(rule@ == self@.rules[rule_index as int]);
        assert(rule@.wf());
        assert(rule@.variants[variant_index as int].wf());
        let variant = rule.variant(variant_index);

        if gives_up(rule.fail_rate(), fail_roll) {
            return false;
        }
        let corner_x = x - variant.origin_x() as i128;
        let corner_y = y - variant.origin_y() as i128;
        self.world.apply_variant(corner_x, corner_y, variant, &self.groups, picks);
        true
    }

    /// Applies a variant at an anchor and repairs the cache around the rectangle that
    /// the template covers; nothing where the roll makes the rule give up.
    fn apply_and_repair(
        &mut self,
        x: i128,
        y: i128,
        rule_index: usize,
        variant_index: usize,
        fail_roll: u8,
        picks: &Vec<usize>,
    )
        requires
            old(self).wf(),
            lists(old(self)@.rules, rule_index as int, variant_index as int),
            reachable((x as int, y as int)),
        ensures
            final(self).wf(),
            old(self)@.applied_at(
                final(self)@,
                rule_index as int,
                variant_index as int,
                (x as int, y as int),
                fail_roll,
                picks@,
            ),
    {
        let ghost before = self@;
        let ghost p = before.rules[rule_index as int].variants[variant_index as int];
        if !self.apply_rule(x, y, rule_index, variant_index, fail_roll, picks) {
            return;
        }
        assert(self.rules@[rule_index as int]@ == self@.rules[rule_index as int]);
        let variant = self.rules[rule_index].variant(variant_index);
        let width = variant.width();
        let height = variant.height();
        let cx = x - variant.origin_x() as i128;
        let cy = y - variant.origin_y() as i128;
        proof {
            lemma_applied_is_local(before.grid, before.groups, p, cx as int, cy as int, picks@);
            assert((DishView { grid: before.grid, ..self@ }) == before);
        }
        self.repair(cx, cy, width, height, Ghost(before.grid));
    }

    /// The rule, the variant and the anchor that two rolls choose from the cache, or
    /// `None` where the cache lists no match.
    fn pick_cached(&self, entry_roll: usize, match_roll: usize) -> (choice: Option<
        (usize, usize, i128, i128),
    >)
        requires
            self.wf(),
        ensures
            choice is None <==> self@.match_cache.len() == 0,
            choice matches Some(c) ==> {
                let (e, a) = self@.cached_choice(entry_roll as int, match_roll as int);
                &&& c.0 == e.rule
                &&& c.1 == e.variant
                &&& (c.2 as int, c.3 as int) == a
                &&& lists(self@.rules, e.rule, e.variant)
                &&& reachable(a)
            },
    {
        if self.match_cache.is_empty() {
            return None;
        }
        let i = entry_roll % self.match_cache.len();
        let i = self.match_cache[i];
        proof {
            let j = entry_roll as int % (self@.match_cache.len() as int);
            assert(self@.match_cache[j] == i);
            assert(self@.match_cache.contains(i as int));
            assert(self@.cache[i as int].matches.len() > 0);
            assert(self@.cache[i as int] == self.cache@[i as int]@);
        }
        let rule_cache = &self.cache[i];
        let match_pos_index = match_roll % rule_cache.matches.len();
        let (x, y) = rule_cache.matches[match_pos_index];
        proof {
            let e = self@.cache[i as int];
            assert(e.matches[match_pos_index as int] == (x as int, y as int));
            assert(all_reachable(e.matches));
        }
        Some((rule_cache.rule, rule_cache.variant, x, y))
    }

    /// The roll that decides whether rule `rule_index` gives up: drawn at random, but
    /// not drawn at all for a rule that never gives up.
    fn draw_fail_roll(&self, rule_index: usize) -> (roll: u8)
        requires
            rule_index < self@.rules.len(),
        ensures
            self@.rules[rule_index as int].failrate == 0 ==> roll == 0,
    {
        assert(self.rules@[rule_index as int]@ == self@.rules[rule_index as int]);
        if self.rules[rule_index].fail_rate() != 0 {
            random_byte()
        } else {
            0
        }
    }

    /// A number for each entry of a variant, by the index of the entry: drawn at random
    /// for the entries that write one of a group's cells, 0 for the others.
    fn draw_picks(&self, rule_index: usize, variant_index: usize) -> (picks: Vec<usize>)
        requires
            self@.rules_ok(),
            lists(self@.rules, rule_index as int, variant_index as int),
        ensures
            picks@.len() == self@.rules[rule_index as int].variants[variant_index as int].cells.len(),
            forall|i: int|
                0 <= i < picks@.len() && !draws(
                    self@.rules[rule_index as int].variants[variant_index as int],
                    self@.groups,
                    i,
                ) ==> #[trigger] picks@[i] == 0,
    {
        assert(self.rules@[rule_index as int]@ == self@.rules[rule_index as int]);
        assert(self@.rules[rule_index as int].wf());
        assert(self@.rules[rule_index as int].variants[variant_index as int].wf());
        let variant = self.rules[rule_index].variant(variant_index);
        let width = variant.width();
        let height = variant.height();
        let ghost p = variant@;
        let ghost groups = self@.groups;
        let mut picks: Vec<usize> = Vec::new();
        let mut dy: usize = 0;
        while dy < height
            invariant
                variant.wf(),
                p == variant@,
                groups == self@.groups,
                width == p.width,
                height == p.height,
                dy <= height,
                picks@.len() == width * dy,
                forall|i: int|
                    0 <= i < picks@.len() && !draws(p, groups, i) ==> #[trigger] picks@[i] == 0,
            decreases height - dy,
        {
            let mut dx: usize = 0;
            while dx < width
                invariant
                    variant.wf(),
                    p == variant@,
                    groups == self@.groups,
                    width == p.width,
                    height == p.height,
                    dy < height,
                    dx <= width,
                    picks@.len() == width * dy + dx,
                    forall|i: int|
                        0 <= i < picks@.len() && !draws(p, groups, i) ==> #[trigger] picks@[i] == 0,
                decreases width - dx,
            {
                proof {
                    lemma_position_index(dx as int, dy as int, width as int, height as int);
                }
                let pick = match variant.get(dx, dy).1 {
                    RuleCellTo::GroupRandom(group_id) => {
                        if group_id < self.groups.len() && !self.groups[group_id].cells.is_empty() {
                            random_index()
                        } else {
                            0
                        }
                    },
                    _ => 0,
                };
                picks.push(pick);
                dx += 1;
            }
            proof {
                assert(width * dy + width == width * (dy + 1)) by (nonlinear_arith);
            }
            dy += 1;
        }
        picks
    }

    /// One step of the simulation with given rolls: applies the match that
    /// `entry_roll` and `match_roll` choose from the cache and repairs the cache.
    /// `fail_roll` decides whether the rule gives up; `picks` holds, by the index of
    /// the entry, the numbers by which entries that write one of a group choose.
    pub fn apply_one_match_with(
        &mut self,
        entry_roll: usize,
        match_roll: usize,
        fail_roll: u8,
        picks: &Vec<usize>,
    )
        requires
            old(self).wf(),
        ensures
            final(self).wf(),
            old(self)@.cached_step(
                final(self)@,
                entry_roll as int,
                match_roll as int,
                fail_roll,
                picks@,
            ),
    {
        match self.pick_cached(entry_roll, match_roll) {
            Some((rule_index, variant_index, x, y)) => {
                self.apply_and_repair(x, y, rule_index, variant_index, fail_roll, picks);
            },
            None => {},
        }
    }

    /// picks a random match from any rule with at least one match
    pub fn apply_one_match(&mut self)
        requires
            old(self).wf(),
        ensures
            final(self).wf(),
            exists|entry_roll: int, match_roll: int, fail_roll: u8, picks: Seq<usize>|
                old(self)@.cached_step(final(self)@, entry_roll, match_roll, fail_roll, picks),
    {
        if self.match_cache.is_empty() {
            assert(self@.cached_step(self@, 0, 0, 0, Seq::empty()));
            return;
        }
        let entry_roll = random_index();
        let match_roll = random_index();
        match self.pick_cached(entry_roll, match_roll) {
            Some((rule_index, variant_index, x, y)) => {
                let fail_roll = self.draw_fail_roll(rule_index);
                let picks = self.draw_picks(rule_index, variant_index);
                self.apply_and_repair(x, y, rule_index, variant_index, fail_roll, &picks);
                assert(old(self)@.cached_step(
                    self@,
                    entry_roll as int,
                    match_roll as int,
                    fail_roll,
                    picks@,
                ));
            },
            None => {},
        }
    }

    /// The anchor that two rolls choose among the positions of the grid, widened on
    /// each side by one less than the greatest width and height of a variant.
    fn sample_anchor(&self, x_roll: usize, y_roll: usize) -> (a: (i128, i128))
        requires
            self.wf(),
        ensures
            (a.0 as int, a.1 as int) == self@.sampled_anchor(x_roll as int, y_roll as int),
            reachable((a.0 as int, a.1 as int)),
    {
        let border_x = (self.max_rule_width - 1) as u128;
        let border_y = (self.max_rule_height - 1) as u128;
        let origin_x = (x_roll as u128 % (CHUNK_SIZE as u128 + border_x * 2)) as i128 - border_x as i128;
        let origin_y = (y_roll as u128 % (CHUNK_SIZE as u128 + border_y * 2)) as i128 - border_y as i128;
        (origin_x, origin_y)
    }

    /// The rules and variants that the cache lists at anchor (`x`, `y`): each once, in
    /// the order of the cache.
    fn get_matches_at_point(&self, x: i128, y: i128) -> (found: Vec<(usize, usize)>)
        requires
            self.wf(),
        ensures
            pairs(found@) == hits_at(self@.cache, (x as int, y as int), self@.cache.len() as int),
            forall|i: int|
                0 <= i < found@.len() ==> lists(
                    self@.rules,
                    #[trigger] found@[i].0 as int,
                    found@[i].1 as int,
                ),
    {
        let ghost a = (x as int, y as int);
        let mut found: Vec<(usize, usize)> = Vec::new();
        let mut k: usize = 0;
        while k < self.cache.len()
            invariant
                self.wf(),
                a == (x as int, y as int),
                k <= self.cache.len(),
                self.cache@.len() == self@.cache.len(),
                pairs(found@) == hits_at(self@.cache, a, k as int),
                forall|i: int|
                    0 <= i < found@.len() ==> lists(
                        self@.rules,
                        #[trigger] found@[i].0 as int,
                        found@[i].1 as int,
                    ),
            decreases self.cache.len() - k,
        {
            let rule = &self.cache[k];
            let ghost e = self@.cache[k as int];
            assert(e == rule@);
            assert(lists(self@.rules, e.rule, e.variant));
            if holds_anchor(&rule.matches, x, y) {
                let ghost shorter = pairs(found@);
                found.push((rule.rule, rule.variant));
                assert(pairs(found@) =~= shorter.push((e.rule, e.variant)));
            }
            k += 1;
        }
        found
    }

    /// One step of the simulation with given rolls: looks at the anchor that `x_roll`
    /// and `y_roll` choose and, where the cache lists matches there, applies the one that
    /// `choice_roll` chooses and repairs the cache. `fail_roll` decides whether the
    /// rule gives up; `picks` holds, by the index of the entry, the numbers by which
    /// entries that write one of a group choose.
    pub fn try_one_location_with(
        &mut self,
        x_roll: usize,
        y_roll: usize,
        choice_roll: usize,
        fail_roll: u8,
        picks: &Vec<usize>,
    )
        requires
            old(self).wf(),
        ensures
            final(self).wf(),
            old(self)@.sampled_step(
                final(self)@,
                x_roll as int,
                y_roll as int,
                choice_roll as int,
                fail_roll,
                picks@,
            ),
    {
        let (origin_x, origin_y) = self.sample_anchor(x_roll, y_roll);
        let matches = self.get_matches_at_point(origin_x, origin_y);
        if matches.is_empty() {
            return;
        }
        let i = choice_roll % matches.len();
        let (rule_index, variant_index) = matches[i];
        assert(pairs(matches@)[i as int] == (rule_index as int, variant_index as int));
        self.apply_and_repair(origin_x, origin_y, rule_index, variant_index, fail_roll, picks);
    }

    /// Picks a random point and applies a random match at that position, if any exist.
    /// The random point can be outside the world bounds, to catch cases where the origin
    /// of a match is outside the bounds.
    pub fn try_one_location(&mut self)
        requires
            old(self).wf(),
        ensures
            final(self).wf(),
            exists|x_roll: int, y_roll: int, choice_roll: int, fail_roll: u8, picks: Seq<usize>|
                old(self)@.sampled_step(final(self)@, x_roll, y_roll, choice_roll, fail_roll, picks),
    {
        let x_roll = random_index();
        let y_roll = random_index();
        let (origin_x, origin_y) = self.sample_anchor(x_roll, y_roll);

        let matches = self.get_matches_at_point(origin_x, origin_y);
        if matches.is_empty() {
            assert(self@.sampled_step(self@, x_roll as int, y_roll as int, 0, 0, Seq::empty()));
            return;
        }
        let choice_roll = random_index();
        let i = choice_roll % matches.len();
        let (rule_index, variant_index) = matches[i];
        assert(pairs(matches@)[i as int] == (rule_index as int, variant_index as int));
        let fail_roll = self.draw_fail_roll(rule_index);
        let picks = self.draw_picks(rule_index, variant_index);
        self.apply_and_repair(origin_x, origin_y, rule_index, variant_index, fail_roll, &picks);
        assert(old(self)@.sampled_step(
            self@,
            x_roll as int,
            y_roll as int,
            choice_roll as int,
            fail_roll,
            picks@,
        ));
    }
}

} // verus!
