//! Filling, rebuilding and repairing the cache of a dish.

use vstd::prelude::*;
use crate::cache::{all_reachable, anchors, discard_overlapping, find_matches, push_new, RuleCache};
use crate::dish::model::{
    indices, lemma_match_cache_is_determined, lemma_recached_agrees, lists, others, pattern_of,
    DishView,
};
use crate::dish::Dish;
use crate::matching::{
    complete, is_full_scan, is_repair, lemma_full_scan, lemma_repair_keeps_distinct,
    lemma_repair_restores, lemma_scan_order_is_strict, reachable, sound, times, Anchor, Rect, FAR,
};
use crate::world::{Grid, CHUNK_SIZE};

verus! {

impl Dish {
    /// Lists in `match_cache`, in rising order, the entries of the cache that hold a
    /// match. Nothing else changes; and nothing at all where `match_cache` listed them
    /// already.
    pub fn update_match_cache(&mut self)
        ensures
            final(self)@.match_cache_exact(),
            final(self)@ == (DishView { match_cache: final(self)@.match_cache, ..old(self)@ }),
            old(self)@.match_cache_exact() ==> final(self)@ == old(self)@,
    {
        let mut listed: Vec<usize> = Vec::new();
        let mut i: usize = 0;
        while i < self.cache.len()
            invariant
                i <= self.cache.len(),
                self@ == old(self)@,
                forall|a: int, b: int| 0 <= a < b < listed@.len() ==> listed@[a] < listed@[b],
                forall|a: int| 0 <= a < listed@.len() ==> listed@[a] < i,
                forall|k: int|
                    indices(listed@).contains(k) <==> 0 <= k < i && (
                    #[trigger] self@.cache[k]).matches.len() > 0,
            decreases self.cache.len() - i,
        {
            assert(self@.cache[i as int].matches.len() == self.cache[i as int].matches.len());
            if !self.cache[i].matches.is_empty() {
                let ghost shorter = indices(listed@);
                listed.push(i);
                proof {
                    let longer = indices(listed@);
                    assert(longer =~= shorter.push(i as int));
                    assert forall|k: int| longer.contains(k) <==> 0 <= k < i + 1 && (
                    #[trigger] self@.cache[k]).matches.len() > 0 by {
                        if shorter.contains(k) {
                            let a = choose|a: int| 0 <= a < shorter.len() && shorter[a] == k;
                            assert(longer[a] == k);
                        }
                        if k == i {
                            assert(longer[shorter.len() as int] == k);
                        }
                        if longer.contains(k) {
                            let a = choose|a: int| 0 <= a < longer.len() && longer[a] == k;
                            if a < shorter.len() {
                                assert(shorter[a] == k);
                            }
                        }
                    }
                }
            }
            i += 1;
        }
        self.match_cache = listed;
        proof {
            if old(self)@.match_cache_exact() {
                lemma_match_cache_is_determined(
                    self@.cache,
                    old(self)@.match_cache,
                    self@.match_cache,
                );
            }
        }
    }

    /// Adds to the cache an entry for each variant of rule `rule_index`, with what a
    /// full scan finds; nothing where the rule is disabled.
    fn add_cache_single_rule(&mut self, rule_index: usize)
        requires
            old(self)@.grid.wf(),
            old(self)@.rules_ok(),
            rule_index < old(self)@.rules.len(),
        ensures
            final(self)@ == (DishView { cache: final(self)@.cache, ..old(self)@ }),
            old(self)@.with_entries_of(final(self)@.cache, rule_index as int),
    {
        let rule = &self.rules[rule_index];
        assert(rule@ == self@.rules[rule_index as int]);
        if !rule.is_enabled() {
            return;
        }
        let count = rule.variant_count();
        let ghost start = self@.cache;
        let mut variant_index: usize = 0;
        while variant_index < count
            invariant
                variant_index <= count,
                count == rule@.variants.len(),
                rule@ == old(self)@.rules[rule_index as int],
                rule@.enabled,
                rule_index < old(self)@.rules.len(),
                old(self)@.rules_ok(),
                old(self)@.grid.wf(),
                start == old(self)@.cache,
                self@ == (DishView { cache: self@.cache, ..old(self)@ }),
                self@.cache.len() == start.len() + variant_index,
                forall|k: int| 0 <= k < start.len() ==> self@.cache[k] == start[k],
                forall|v: int|
                    0 <= v < variant_index ==> {
                        let e = #[trigger] self@.cache[start.len() + v];
                        &&& e.rule == rule_index
                        &&& e.variant == v
                        &&& all_reachable(e.matches)
                        &&& is_full_scan(
                            e.matches,
                            old(self)@.grid,
                            old(self)@.groups,
                            old(self)@.rules[rule_index as int].variants[v],
                        )
                    },
            decreases count - variant_index,
        {
            let variant = rule.variant(variant_index);
            assert(rule@.wf());
            assert(rule@.variants[variant_index as int].wf());
            let border_x = variant.width() as i128 - 1;
            let border_y = variant.height() as i128 - 1;
            let matches = find_matches(
                &self.world,
                &self.groups,
                variant,
                -border_x,
                CHUNK_SIZE as i128 + border_x,
                -border_y,
                CHUNK_SIZE as i128 + border_y,
            );
            let ghost shorter = self@.cache;
            let entry = RuleCache { rule: rule_index, variant: variant_index, matches };
            self.cache.push(entry);
            assert(self@.cache =~= shorter.push(entry@));
            variant_index += 1;
        }
    }

    /// Sets `max_rule_width` and `max_rule_height` from the variants of the enabled rules.
    fn measure(&mut self)
        ensures
            final(self)@.bounds_exact(),
            final(self)@ == (DishView {
                max_rule_width: final(self)@.max_rule_width,
                max_rule_height: final(self)@.max_rule_height,
                ..old(self)@
            }),
    {
        let mut width: usize = 1;
        let mut height: usize = 1;
        let mut i: usize = 0;
        while i < self.rules.len()
            invariant
                i <= self.rules.len(),
                self@ == old(self)@,
                1 <= width,
                1 <= height,
                forall|r: int, v: int| #[trigger]
                    lists(self@.rules, r, v) && r < i ==> self@.rules[r].variants[v].width <= width
                        && self@.rules[r].variants[v].height <= height,
                width == 1 || exists|r: int, v: int| #[trigger]
                    lists(self@.rules, r, v) && self@.rules[r].variants[v].width == width,
                height == 1 || exists|r: int, v: int| #[trigger]
                    lists(self@.rules, r, v) && self@.rules[r].variants[v].height == height,
            decreases self.rules.len() - i,
        {
            let rule = &self.rules[i];
            assert(rule@ == self@.rules[i as int]);
            if rule.is_enabled() {
                let w = rule.max_width();
                let h = rule.max_height();
                if w > width {
                    proof {
                        let v = choose|v: int|
                            0 <= v < rule@.variants.len() && (#[trigger] rule@.variants[v]).width == w;
                        assert(lists(self@.rules, i as int, v));
                    }
                    width = w;
                }
                if h > height {
                    proof {
                        let v = choose|v: int|
                            0 <= v < rule@.variants.len() && (#[trigger] rule@.variants[v]).height == h;
                        assert(lists(self@.rules, i as int, v));
                    }
                    height = h;
                }
            }
            i += 1;
        }
        self.max_rule_width = width;
        self.max_rule_height = height;
    }

    /// Empties the cache and fills it again by a full scan for every variant of every
    /// enabled rule.
    pub fn rebuild_cache(&mut self)
        requires
            old(self)@.grid.wf(),
            old(self)@.rules_ok(),
        ensures
            final(self).wf(),
            final(self)@.cache_fresh(),
            final(self)@.grid == old(self)@.grid,
            final(self)@.rules == old(self)@.rules,
            final(self)@.types == old(self)@.types,
            final(self)@.groups == old(self)@.groups,
    {
        self.cache.clear();
        let mut rule_index: usize = 0;
        while rule_index < self.rules.len()
            invariant
                rule_index <= self.rules.len(),
                self.rules.len() == self@.rules.len(),
                self@ == (DishView { cache: self@.cache, ..old(self)@ }),
                self@.grid.wf(),
                self@.rules_ok(),
                self@.cache_fresh(),
                self@.cache_reachable(),
                forall|k: int|
                    0 <= k < self@.cache.len() ==> lists(self@.rules, 
                        (#[trigger] self@.cache[k]).rule,
                        self@.cache[k].variant,
                    ) && self@.cache[k].rule < rule_index,
                forall|r: int, v: int| #[trigger]
                    lists(self@.rules, r, v) && r < rule_index ==> exists|k: int|
                        0 <= k < self@.cache.len() && (#[trigger] self@.cache[k]).rule == r
                            && self@.cache[k].variant == v,
            decreases self.rules.len() - rule_index,
        {
            let ghost before = self@;
            self.add_cache_single_rule(rule_index);
            proof {
                let after = self@;
                assert(after.rules.len() == self.rules.len());
                assert forall|r: int, v: int| #[trigger]
                    lists(after.rules, r, v) && r < rule_index + 1 implies exists|k: int|
                    0 <= k < after.cache.len() && (#[trigger] after.cache[k]).rule == r
                        && after.cache[k].variant == v by {
                    if r < rule_index {
                        assert(lists(before.rules, r, v));
                        let k = choose|k: int|
                            0 <= k < before.cache.len() && (#[trigger] before.cache[k]).rule == r
                                && before.cache[k].variant == v;
                        assert(after.cache[k] == before.cache[k]);
                    } else {
                        let e = after.cache[before.cache.len() + v];
                        assert(e.rule == r && e.variant == v);
                    }
                }
                assert forall|k: int| 0 <= k < after.cache.len() implies lists(after.rules, 
                    (#[trigger] after.cache[k]).rule,
                    after.cache[k].variant,
                ) && after.cache[k].rule < rule_index + 1 && all_reachable(after.cache[k].matches)
                    && is_full_scan(
                    after.cache[k].matches,
                    after.grid,
                    after.groups,
                    pattern_of(after.rules, after.cache[k]),
                ) by {
                    if k < before.cache.len() {
                        assert(after.cache[k] == before.cache[k]);
                    } else {
                        let v = k - before.cache.len();
                        let e = after.cache[before.cache.len() + v];
                        assert(e.rule == rule_index && e.variant == v);
                    }
                }
                assert forall|j: int, k: int| 0 <= j < k < after.cache.len() implies (
                #[trigger] after.cache[j]).rule < (#[trigger] after.cache[k]).rule || (
                after.cache[j].rule == after.cache[k].rule && after.cache[j].variant
                    < after.cache[k].variant) by {
                    if k < before.cache.len() {
                        assert(after.cache[k] == before.cache[k]);
                        assert(after.cache[j] == before.cache[j]);
                    } else {
                        let vk = k - before.cache.len();
                        let ek = after.cache[before.cache.len() + vk];
                        assert(ek.rule == rule_index && ek.variant == vk);
                        if j < before.cache.len() {
                            assert(after.cache[j] == before.cache[j]);
                        } else {
                            let vj = j - before.cache.len();
                            let ej = after.cache[before.cache.len() + vj];
                            assert(ej.rule == rule_index && ej.variant == vj);
                        }
                    }
                }
            }
            rule_index += 1;
        }
        self.update_match_cache();
        self.measure();
        proof {
            let after = self@;
            assert forall|k: int| 0 <= k < after.cache.len() implies sound(
                (#[trigger] after.cache[k]).matches,
                after.grid,
                after.groups,
                pattern_of(after.rules, after.cache[k]),
            ) && complete(
                after.cache[k].matches,
                after.grid,
                after.groups,
                pattern_of(after.rules, after.cache[k]),
            ) && after.cache[k].matches.no_duplicates() by {
                lemma_full_scan(
                    after.cache[k].matches,
                    after.grid,
                    after.groups,
                    pattern_of(after.rules, after.cache[k]),
                );
            }
        }
    }

    /// Repairs the cache around the rectangle at (`x`, `y`) of size `w` by `h`, outside
    /// of which the world is as it was when the cache agreed with it.
    pub(super) fn repair(&mut self, x: i128, y: i128, w: usize, h: usize, Ghost(was): Ghost<Grid>)
        requires
            (DishView { grid: was, ..old(self)@ }).wf(),
            old(self)@.grid.wf(),
            was.same_outside(old(self)@.grid, x as int, y as int, w as int, h as int),
            -2 * FAR <= x <= 2 * FAR,
            -2 * FAR <= y <= 2 * FAR,
        ensures
            final(self).wf(),
            final(self)@.repaired_from(
                old(self)@,
                Rect { x: x as int, y: y as int, w: w as int, h: h as int },
            ),
    {
        let ghost rect = Rect { x: x as int, y: y as int, w: w as int, h: h as int };
        let ghost start = self@;
        let ghost agreed = DishView { grid: was, ..start };
        let mut i: usize = 0;
        while i < self.cache.len()
            invariant
                i <= self.cache.len(),
                rect == (Rect { x: x as int, y: y as int, w: w as int, h: h as int }),
                -2 * FAR <= x <= 2 * FAR,
                -2 * FAR <= y <= 2 * FAR,
                start == old(self)@,
                agreed == (DishView { grid: was, ..start }),
                start.grid.wf(),
                start.rules_ok(),
                start.cache_structured(),
                start.cache_reachable(),
                start.cache_distinct(),
                start.bounds_exact(),
                agreed.cache_sound(),
                agreed.cache_complete(),
                was.same_outside(start.grid, x as int, y as int, w as int, h as int),
                self@ == (DishView { cache: self@.cache, ..start }),
                self@.cache.len() == start.cache.len(),
                self.cache@.len() == start.cache.len(),
                self.rules@.len() == start.rules.len(),
                forall|k: int|
                    0 <= k < self@.cache.len() ==> (#[trigger] self@.cache[k]).rule
                        == start.cache[k].rule && self@.cache[k].variant == start.cache[k].variant
                        && all_reachable(self@.cache[k].matches),
                forall|k: int| i <= k < self@.cache.len() ==> #[trigger] self@.cache[k] == start.cache[k],
                forall|k: int|
                    0 <= k < i ==> is_repair(
                        start.cache[k].matches,
                        (#[trigger] self@.cache[k]).matches,
                        start.grid,
                        start.groups,
                        pattern_of(start.rules, start.cache[k]),
                        rect,
                    ),
            decreases self.cache.len() - i,
        {
            let ghost mid = self@;
            let rule_index = self.cache[i].rule;
            let variant_index = self.cache[i].variant;
            proof {
                let e = start.cache[i as int];
                assert(self@.cache[i as int] == e);
                assert(lists(start.rules, e.rule, e.variant));
                assert(start.rules[e.rule].wf());
                assert(start.rules[e.rule].variants[e.variant].wf());
                assert(self.rules@[rule_index as int]@ == start.rules[e.rule]);
            }
            let variant = self.rules[rule_index].variant(variant_index);
            let rule_width = variant.width();
            let rule_height = variant.height();

            // discard all overlapping matches
            let ghost listed = anchors(self.cache@[i as int].matches@);
            discard_overlapping(&mut self.cache[i].matches, variant, x, y, w, h);
            let ghost kept = anchors(self.cache@[i as int].matches@);

            // check entire changed area and add matches
            let border_x = rule_width as i128 - 1;
            let border_y = rule_height as i128 - 1;
            let x_min = x - border_x;
            let y_min = y - border_y;
            let x_max = x + w as i128 + border_x;
            let y_max = y + h as i128 + border_y;
            let x_from = if x_min < -FAR { -FAR } else { x_min };
            let x_to = if x_max > FAR + 1 { FAR + 1 } else { x_max };
            let y_from = if y_min < -FAR { -FAR } else { y_min };
            let y_to = if y_max > FAR + 1 { FAR + 1 } else { y_max };
            let found = find_matches(
                &self.world,
                &self.groups,
                variant,
                x_from,
                x_to,
                y_from,
                y_to,
            );
            let ghost added = anchors(found@);
            proof {
                lemma_scan_order_is_strict(added);
            }
            // only the matches that were not kept are new
            push_new(&mut self.cache[i].matches, &found);
            proof {
                let after = self@;
                let p = variant@;
                let now = after.cache[i as int].matches;
                assert forall|a: Anchor|
                    #[trigger] times(now, a) == (if !p.touches(rect, a) && times(listed, a) > 0 {
                        times(listed, a)
                    } else if p.in_rescan_range(rect, a) && reachable(a) && p.matches_anchored(
                        start.grid,
                        start.groups,
                        a,
                    ) {
                        1nat
                    } else {
                        0
                    }) by {
                    assert(times(now, a) == (if times(kept, a) > 0 {
                        times(kept, a)
                    } else if added.contains(a) {
                        1nat
                    } else {
                        0
                    }));
                    assert(times(kept, a) == (if p.touches(rect, a) {
                        0
                    } else {
                        times(listed, a)
                    }));
                    assert(added.contains(a) <==> x_from <= a.0 < x_to && y_from <= a.1 < y_to
                        && p.matches_anchored(start.grid, start.groups, a));
                }
                assert(all_reachable(now));
                assert forall|k: int| 0 <= k < after.cache.len() implies (
                #[trigger] after.cache[k]).rule == start.cache[k].rule && after.cache[k].variant
                    == start.cache[k].variant && all_reachable(after.cache[k].matches) by {
                    if k != i {
                        assert(after.cache[k] == mid.cache[k]);
                    }
                }
                assert forall|k: int| i + 1 <= k < after.cache.len() implies #[trigger] after.cache[k]
                    == start.cache[k] by {
                    assert(after.cache[k] == mid.cache[k]);
                }
                assert forall|k: int| 0 <= k < i + 1 implies is_repair(
                    start.cache[k].matches,
                    (#[trigger] after.cache[k]).matches,
                    start.grid,
                    start.groups,
                    pattern_of(start.rules, start.cache[k]),
                    rect,
                ) by {
                    if k < i {
                        assert(after.cache[k] == mid.cache[k]);
                    }
                }
            }
            i += 1;
        }
        self.update_match_cache();
        proof {
            let after = self@;
            assert(after.rules == start.rules);
            assert(after.rules_ok());
            assert(after.bounds_exact());
            assert(after.cache_reachable());
            assert forall|k: int| 0 <= k < after.cache.len() implies (
            #[trigger] after.cache[k]).matches.no_duplicates() by {
                lemma_repair_keeps_distinct(
                    start.cache[k].matches,
                    after.cache[k].matches,
                    after.grid,
                    after.groups,
                    pattern_of(start.rules, start.cache[k]),
                    rect,
                );
            }
            assert forall|k: int| 0 <= k < after.cache.len() implies sound(
                (#[trigger] after.cache[k]).matches,
                after.grid,
                after.groups,
                pattern_of(after.rules, after.cache[k]),
            ) && complete(
                after.cache[k].matches,
                after.grid,
                after.groups,
                pattern_of(after.rules, after.cache[k]),
            ) by {
                let e = start.cache[k];
                assert(agreed.cache[k] == e);
                assert(lists(start.rules, e.rule, e.variant));
                assert(start.rules[e.rule].wf());
                assert(start.rules[e.rule].variants[e.variant].wf());
                assert(sound(e.matches, was, start.groups, pattern_of(start.rules, e)));
                assert(complete(e.matches, was, start.groups, pattern_of(start.rules, e)));
                lemma_repair_restores(
                    start.cache[k].matches,
                    after.cache[k].matches,
                    was,
                    after.grid,
                    after.groups,
                    pattern_of(start.rules, start.cache[k]),
                    rect,
                );
            }
            assert(after.cache_structured()) by {
                assert forall|k: int| 0 <= k < after.cache.len() implies lists(
                    after.rules,
                    (#[trigger] after.cache[k]).rule,
                    after.cache[k].variant,
                ) by {
                    assert(lists(start.rules, start.cache[k].rule, start.cache[k].variant));
                }
                assert forall|r: int, v: int| #[trigger] lists(after.rules, r, v) implies exists|k: int|
                    0 <= k < after.cache.len() && (#[trigger] after.cache[k]).rule == r
                        && after.cache[k].variant == v by {
                    assert(lists(start.rules, r, v));
                    let k = choose|k: int|
                        0 <= k < start.cache.len() && (#[trigger] start.cache[k]).rule == r
                            && start.cache[k].variant == v;
                    assert(after.cache[k].rule == r && after.cache[k].variant == v);
                }
                assert forall|j: int, k: int| 0 <= j < k < after.cache.len() implies !((
                #[trigger] after.cache[j]).rule == (#[trigger] after.cache[k]).rule
                    && after.cache[j].variant == after.cache[k].variant) by {
                    assert(!(start.cache[j].rule == start.cache[k].rule && start.cache[j].variant
                        == start.cache[k].variant));
                }
            }
        }
    }

    /// Repairs the cache around the rectangle at (`cx`, `cy`) of size `width` by
    /// `height`: in every entry the anchors whose template touches the rectangle are
    /// dropped, the anchors around it are scanned again, and the matches among them that
    /// the entry does not hold are added.
    pub fn update_cache(&mut self, cx: isize, cy: isize, width: usize, height: usize)
        requires
            old(self).wf(),
        ensures
            final(self).wf(),
            final(self)@.repaired_from(
                old(self)@,
                Rect { x: cx as int, y: cy as int, w: width as int, h: height as int },
            ),
    {
        let ghost was = self@.grid;
        self.repair(cx as i128, cy as i128, width, height, Ghost(was));
    }

    /// Takes the entries of rule `rule_index` out of the cache.
    fn drop_entries_of(&mut self, rule_index: usize)
        ensures
            final(self)@ == (DishView {
                cache: others(old(self)@.cache, rule_index as int, old(self)@.cache.len() as int),
                ..old(self)@
            }),
    {
        let ghost start = self@.cache;
        let ghost mut seen: int = 0;
        let mut i: usize = 0;
        while i < self.cache.len()
            invariant
                start == old(self)@.cache,
                self@ == (DishView { cache: self@.cache, ..old(self)@ }),
                0 <= seen <= start.len(),
                i <= self.cache.len(),
                i == others(start, rule_index as int, seen).len(),
                self@.cache == others(start, rule_index as int, seen) + start.subrange(
                    seen,
                    start.len() as int,
                ),
            decreases self.cache.len() - i,
        {
            let ghost kept = others(start, rule_index as int, seen);
            let ghost rest = start.subrange(seen, start.len() as int);
            proof {
                assert(self@.cache.len() == kept.len() + rest.len());
                assert(self@.cache[i as int] == rest[0]);
                assert(rest[0] == start[seen]);
                assert(self@.cache[i as int] == self.cache@[i as int]@);
            }
            if self.cache[i].rule == rule_index {
                let ghost longer = self@.cache;
                self.cache.remove(i);
                proof {
                    assert(self@.cache =~= longer.remove(i as int));
                    assert(self@.cache =~= others(start, rule_index as int, seen + 1) + start.subrange(
                        seen + 1,
                        start.len() as int,
                    ));
                    seen = seen + 1;
                }
            } else {
                proof {
                    assert(self@.cache =~= others(start, rule_index as int, seen + 1) + start.subrange(
                        seen + 1,
                        start.len() as int,
                    ));
                    seen = seen + 1;
                }
                i += 1;
            }
        }
        proof {
            assert(seen == start.len());
            assert(self@.cache =~= others(start, rule_index as int, start.len() as int));
        }
    }

    /// run after any rule modification
    ///
    /// Takes the entries of rule `rule_index` out of the cache and puts an entry for
    /// each of its variants at the end, with what a full scan finds. Only the former
    /// where there is no such rule.
    pub fn update_cache_single_rule(&mut self, rule_index: usize)
        requires
            old(self)@.settled_but(rule_index as int),
        ensures
            final(self).wf(),
            final(self)@.grid == old(self)@.grid,
            final(self)@.rules == old(self)@.rules,
            final(self)@.types == old(self)@.types,
            final(self)@.groups == old(self)@.groups,
            old(self)@.recached(final(self)@.cache, rule_index as int),
            old(self).wf() && rule_index >= old(self)@.rules.len() ==> final(self)@ == old(self)@,
    {
        let ghost start = self@;
        let ghost r = rule_index as int;
        // remove old cache for this rule, since the variants may have changed
        self.drop_entries_of(rule_index);
        let ghost kept = self@.cache;
        if rule_index < self.rules.len() {
            self.add_cache_single_rule(rule_index);
        }
        self.update_match_cache();
        self.measure();
        proof {
            lemma_recached_agrees(start, self@, r);
        }
    }

    /// run after adding a rule
    ///
    /// Puts the entries of the last rule into the cache; nothing where there is no rule.
    pub fn cache_last_added_rule(&mut self)
        requires
            old(self)@.settled_but(old(self)@.rules.len() - 1),
            old(self)@.rules.len() == 0 ==> old(self).wf(),
        ensures
            final(self).wf(),
            final(self)@.grid == old(self)@.grid,
            final(self)@.rules == old(self)@.rules,
            final(self)@.types == old(self)@.types,
            final(self)@.groups == old(self)@.groups,
            old(self)@.rules.len() == 0 ==> final(self)@ == old(self)@,
            old(self)@.rules.len() > 0 ==> old(self)@.recached(
                final(self)@.cache,
                old(self)@.rules.len() - 1,
            ),
    {
        if self.rules.is_empty() {
            return;
        }
        let index = self.rules.len() - 1;
        self.update_cache_single_rule(index);
    }

    /// Derives the variants of every rule again and rebuilds the cache.
    pub fn update_all_rules(&mut self)
        requires
            old(self)@.grid.wf(),
            forall|i: int| 0 <= i < old(self)@.rules.len() ==> (#[trigger] old(self)@.rules[i]).wf(),
        ensures
            final(self).wf(),
            final(self)@.cache_fresh(),
            final(self)@.grid == old(self)@.grid,
            final(self)@.types == old(self)@.types,
            final(self)@.groups == old(self)@.groups,
            final(self)@.rules.len() == old(self)@.rules.len(),
            forall|i: int|
                0 <= i < old(self)@.rules.len() ==> #[trigger] final(self)@.rules[i] == old(
                    self,
                )@.rules[i].regenerated(),
    {
        let mut i: usize = 0;
        while i < self.rules.len()
            invariant
                i <= self.rules.len(),
                self.rules@.len() == old(self)@.rules.len(),
                self@ == (DishView { rules: self@.rules, ..old(self)@ }),
                forall|k: int| 0 <= k < old(self)@.rules.len() ==> (#[trigger] old(self)@.rules[k]).wf(),
                forall|k: int| 0 <= k < i ==> #[trigger] self@.rules[k] == old(self)@.rules[k].regenerated(),
                forall|k: int| 0 <= k < i ==> (#[trigger] self@.rules[k]).wf(),
                forall|k: int| i <= k < self@.rules.len() ==> #[trigger] self@.rules[k] == old(self)@.rules[k],
            decreases self.rules.len() - i,
        {
            let ghost before = self@.rules;
            assert(self@.rules[i as int] == self.rules@[i as int]@);
            assert(old(self)@.rules[i as int].wf());
            self.rules[i].generate_variants();
            proof {
                assert(self@.rules =~= before.update(i as int, before[i as int].regenerated()));
            }
            i += 1;
        }
        self.rebuild_cache();
    }
}

} // verus!
