//! The dish as a mathematical value: what its cache has to hold, and what a step
//! of the simulation makes of it.

use vstd::prelude::*;
use crate::apply::{aborts, applied};
use crate::cache::{all_reachable, EntryView};
use crate::cell::{Cell, CellData, GroupView};
use crate::matching::{
    complete, is_full_scan, is_repair, lemma_full_scan, lemma_match_is_local, lemma_repair_set,
    lemma_repair_then_rebuild, lemma_rescan_within_scan, lemma_scans_agree, reachable, rebuilt_set,
    scanned_before, sound, Anchor, Rect,
};
use crate::pattern::{Pattern, RuleCellFrom, RuleCellTo};
use crate::rule::{Rule, RuleView};
use crate::world::{matches_at, Grid, CHUNK_SIZE};

verus! {

/// The dish as a mathematical value.
pub struct DishView {
    pub grid: Grid,
    pub rules: Seq<RuleView>,
    pub types: Seq<CellData>,
    pub groups: Seq<GroupView>,
    /// one entry for each variant of each enabled rule
    pub cache: Seq<EntryView>,
    /// the entries of `cache` that list a match
    pub match_cache: Seq<int>,
    pub max_rule_width: int,
    pub max_rule_height: int,
}

/// The rules of a list, each as a mathematical value.
pub open spec fn rule_views(rules: Seq<Rule>) -> Seq<RuleView> {
    Seq::new(rules.len(), |i: int| rules[i]@)
}

/// The indices of a stored list.
pub open spec fn indices(list: Seq<usize>) -> Seq<int> {
    Seq::new(list.len(), |i: int| list[i] as int)
}

/// Whether variant `v` of rule `r` exists and belongs to an enabled rule.
pub open spec fn lists(rules: Seq<RuleView>, r: int, v: int) -> bool {
    0 <= r < rules.len() && rules[r].enabled && 0 <= v < rules[r].variants.len()
}

/// The template that an entry of the cache speaks of.
pub open spec fn pattern_of(rules: Seq<RuleView>, e: EntryView) -> Pattern {
    rules[e.rule].variants[e.variant]
}

/// Every rule is well formed and its variants are the ones that follow from its base.
pub open spec fn rules_ok(rules: Seq<RuleView>) -> bool {
    forall|i: int| 0 <= i < rules.len() ==> (#[trigger] rules[i]).wf() && rules[i].is_current()
}

/// The cache holds one entry for each variant of each enabled rule, and no other.
pub open spec fn cache_structured(rules: Seq<RuleView>, cache: Seq<EntryView>) -> bool {
    &&& forall|k: int| 0 <= k < cache.len() ==> lists(rules, (#[trigger] cache[k]).rule, cache[k].variant)
    &&& forall|j: int, k: int|
        0 <= j < k < cache.len() ==> !((#[trigger] cache[j]).rule == (#[trigger] cache[k]).rule
            && cache[j].variant == cache[k].variant)
    &&& forall|r: int, v: int| #[trigger]
        lists(rules, r, v) ==> exists|k: int|
            0 <= k < cache.len() && (#[trigger] cache[k]).rule == r && cache[k].variant == v
}

/// At every anchor in the cache, the variant it is listed for matches the world.
pub open spec fn cache_sound(
    grid: Grid,
    rules: Seq<RuleView>,
    groups: Seq<GroupView>,
    cache: Seq<EntryView>,
) -> bool {
    forall|k: int|
        0 <= k < cache.len() ==> sound(
            (#[trigger] cache[k]).matches,
            grid,
            groups,
            pattern_of(rules, cache[k]),
        )
}

/// Every match in the range of a full scan is in the cache.
pub open spec fn cache_complete(
    grid: Grid,
    rules: Seq<RuleView>,
    groups: Seq<GroupView>,
    cache: Seq<EntryView>,
) -> bool {
    forall|k: int|
        0 <= k < cache.len() ==> complete(
            (#[trigger] cache[k]).matches,
            grid,
            groups,
            pattern_of(rules, cache[k]),
        )
}

/// Every anchor in the cache is near enough to be listed.
pub open spec fn cache_reachable(cache: Seq<EntryView>) -> bool {
    forall|k: int| 0 <= k < cache.len() ==> all_reachable((#[trigger] cache[k]).matches)
}

/// No list of the cache holds an anchor twice.
pub open spec fn cache_distinct(cache: Seq<EntryView>) -> bool {
    forall|k: int| 0 <= k < cache.len() ==> (#[trigger] cache[k]).matches.no_duplicates()
}

/// `match_cache` names, in rising order, exactly the entries of the cache that list
/// a match.
pub open spec fn match_cache_exact(cache: Seq<EntryView>, match_cache: Seq<int>) -> bool {
    &&& forall|i: int, j: int| 0 <= i < j < match_cache.len() ==> match_cache[i] < match_cache[j]
    &&& forall|k: int|
        #![trigger match_cache.contains(k)]
        #![trigger cache[k]]
        match_cache.contains(k) <==> 0 <= k < cache.len() && cache[k].matches.len() > 0
}

/// `width` and `height` are the greatest width and height among the variants of the
/// enabled rules, and 1 where there is none.
pub open spec fn bounds_exact(rules: Seq<RuleView>, width: int, height: int) -> bool {
    &&& 1 <= width
    &&& 1 <= height
    &&& forall|r: int, v: int| #[trigger]
        lists(rules, r, v) ==> rules[r].variants[v].width <= width && rules[r].variants[v].height
            <= height
    &&& width == 1 || exists|r: int, v: int| #[trigger]
        lists(rules, r, v) && rules[r].variants[v].width == width
    &&& height == 1 || exists|r: int, v: int| #[trigger]
        lists(rules, r, v) && rules[r].variants[v].height == height
}

/// The cache is what a rebuild leaves: its entries in the order of the rules and of
/// their variants, each with what a full scan finds.
pub open spec fn cache_fresh(
    grid: Grid,
    rules: Seq<RuleView>,
    groups: Seq<GroupView>,
    cache: Seq<EntryView>,
) -> bool {
    &&& forall|j: int, k: int|
        0 <= j < k < cache.len() ==> (#[trigger] cache[j]).rule < (#[trigger] cache[k]).rule || (
        cache[j].rule == cache[k].rule && cache[j].variant < cache[k].variant)
    &&& forall|k: int|
        0 <= k < cache.len() ==> is_full_scan(
            (#[trigger] cache[k]).matches,
            grid,
            groups,
            pattern_of(rules, cache[k]),
        )
}

impl DishView {
    /// Every rule is well formed and its variants are current.
    pub open spec fn rules_ok(self) -> bool {
        rules_ok(self.rules)
    }

    /// The cache holds one entry for each variant of each enabled rule, and no other.
    pub open spec fn cache_structured(self) -> bool {
        cache_structured(self.rules, self.cache)
    }

    /// At every anchor in the cache, the variant it is listed for matches the world.
    pub open spec fn cache_sound(self) -> bool {
        cache_sound(self.grid, self.rules, self.groups, self.cache)
    }

    /// Every match in the range of a full scan is in the cache.
    pub open spec fn cache_complete(self) -> bool {
        cache_complete(self.grid, self.rules, self.groups, self.cache)
    }

    /// Every anchor in the cache is near enough to be listed.
    pub open spec fn cache_reachable(self) -> bool {
        cache_reachable(self.cache)
    }

    /// No list of the cache holds an anchor twice.
    pub open spec fn cache_distinct(self) -> bool {
        cache_distinct(self.cache)
    }

    /// `match_cache` names exactly the entries of the cache that list a match.
    pub open spec fn match_cache_exact(self) -> bool {
        match_cache_exact(self.cache, self.match_cache)
    }

    /// The greatest width and height of a variant are as recorded.
    pub open spec fn bounds_exact(self) -> bool {
        bounds_exact(self.rules, self.max_rule_width, self.max_rule_height)
    }

    /// The cache is what a rebuild leaves.
    pub open spec fn cache_fresh(self) -> bool {
        cache_fresh(self.grid, self.rules, self.groups, self.cache)
    }

    /// Whether `cache` is this dish's cache followed by an entry for each variant of
    /// rule `r`, with what a full scan finds; by nothing where the rule is disabled.
    pub open spec fn with_entries_of(self, cache: Seq<EntryView>, r: int) -> bool {
        let n = if self.rules[r].enabled {
            self.rules[r].variants.len() as int
        } else {
            0
        };
        &&& cache.len() == self.cache.len() + n
        &&& forall|k: int| 0 <= k < self.cache.len() ==> cache[k] == self.cache[k]
        &&& forall|v: int|
            0 <= v < n ==> {
                let e = #[trigger] cache[self.cache.len() + v];
                &&& e.rule == r
                &&& e.variant == v
                &&& all_reachable(e.matches)
                &&& is_full_scan(e.matches, self.grid, self.groups, self.rules[r].variants[v])
            }
    }

    /// Whether this dish is `before` with its cache repaired around `rect`: the same
    /// world, rules and groups, and every entry of the cache repaired.
    pub open spec fn repaired_from(self, before: DishView, rect: Rect) -> bool {
        &&& self.grid == before.grid
        &&& self.rules == before.rules
        &&& self.types == before.types
        &&& self.groups == before.groups
        &&& self.max_rule_width == before.max_rule_width
        &&& self.max_rule_height == before.max_rule_height
        &&& self.cache.len() == before.cache.len()
        &&& forall|k: int|
            0 <= k < self.cache.len() ==> {
                &&& (#[trigger] self.cache[k]).rule == before.cache[k].rule
                &&& self.cache[k].variant == before.cache[k].variant
                &&& is_repair(
                    before.cache[k].matches,
                    self.cache[k].matches,
                    self.grid,
                    self.groups,
                    pattern_of(self.rules, self.cache[k]),
                    rect,
                )
            }
    }

    /// Whether `after` is this dish once variant `v` of rule `r` has been applied at
    /// anchor `a`. Where the roll makes the rule give up, nothing has changed. Else the
    /// template has written to the world, and the cache is repaired around the
    /// rectangle that it covers.
    pub open spec fn applied_at(
        self,
        after: DishView,
        r: int,
        v: int,
        a: Anchor,
        fail_roll: u8,
        picks: Seq<usize>,
    ) -> bool {
        let p = self.rules[r].variants[v];
        if aborts(self.rules[r].failrate, fail_roll) {
            after == self
        } else {
            after.repaired_from(
                DishView {
                    grid: applied(
                        self.grid,
                        self.groups,
                        p,
                        a.0 - p.origin_x,
                        a.1 - p.origin_y,
                        picks,
                    ),
                    ..self
                },
                p.footprint(a),
            )
        }
    }

    /// The entry of the cache and the anchor in it that two rolls choose: the first
    /// among the entries that list a match, the second among the matches of that entry.
    pub open spec fn cached_choice(self, entry_roll: int, match_roll: int) -> (EntryView, Anchor) {
        let e = self.cache[self.match_cache[entry_roll % (self.match_cache.len() as int)]];
        (e, e.matches[match_roll % (e.matches.len() as int)])
    }

    /// Whether `after` is this dish after one step that applies a match chosen from the
    /// cache: unchanged where the cache lists no match.
    pub open spec fn cached_step(
        self,
        after: DishView,
        entry_roll: int,
        match_roll: int,
        fail_roll: u8,
        picks: Seq<usize>,
    ) -> bool {
        if self.match_cache.len() == 0 {
            after == self
        } else {
            let (e, a) = self.cached_choice(entry_roll, match_roll);
            self.applied_at(after, e.rule, e.variant, a, fail_roll, picks)
        }
    }

    /// The anchor that two rolls choose: a position of the grid widened on each side by
    /// one less than the greatest width and height of a variant.
    pub open spec fn sampled_anchor(self, x_roll: int, y_roll: int) -> Anchor {
        let border_x = self.max_rule_width - 1;
        let border_y = self.max_rule_height - 1;
        (
            x_roll % (CHUNK_SIZE + border_x * 2) - border_x,
            y_roll % (CHUNK_SIZE + border_y * 2) - border_y,
        )
    }

    /// Whether `after` is this dish after one step that tries one location: unchanged
    /// where no match is listed at the anchor that the rolls choose; else one of the
    /// variants listed there is applied.
    pub open spec fn sampled_step(
        self,
        after: DishView,
        x_roll: int,
        y_roll: int,
        choice_roll: int,
        fail_roll: u8,
        picks: Seq<usize>,
    ) -> bool {
        let a = self.sampled_anchor(x_roll, y_roll);
        let found = hits_at(self.cache, a, self.cache.len() as int);
        if found.len() == 0 {
            after == self
        } else {
            let (r, v) = found[choice_roll % (found.len() as int)];
            self.applied_at(after, r, v, a, fail_roll, picks)
        }
    }

    /// The world and the rules are well formed, and the cache agrees with them as far
    /// as it speaks of other rules than `r`: every entry of another rule is as it
    /// should be, and no variant of an enabled rule other than `r` lacks its entry.
    pub open spec fn settled_but(self, r: int) -> bool {
        &&& self.grid.wf()
        &&& self.rules_ok()
        &&& forall|k: int|
            0 <= k < self.cache.len() && (#[trigger] self.cache[k]).rule != r ==> {
                &&& lists(self.rules, self.cache[k].rule, self.cache[k].variant)
                &&& all_reachable(self.cache[k].matches)
                &&& self.cache[k].matches.no_duplicates()
                &&& sound(
                    self.cache[k].matches,
                    self.grid,
                    self.groups,
                    pattern_of(self.rules, self.cache[k]),
                )
                &&& complete(
                    self.cache[k].matches,
                    self.grid,
                    self.groups,
                    pattern_of(self.rules, self.cache[k]),
                )
            }
        &&& forall|j: int, k: int|
            0 <= j < k < self.cache.len() && self.cache[j].rule != r && self.cache[k].rule != r ==> !((
            #[trigger] self.cache[j]).rule == (#[trigger] self.cache[k]).rule
                && self.cache[j].variant == self.cache[k].variant)
        &&& forall|q: int, v: int| #[trigger]
            lists(self.rules, q, v) && q != r ==> exists|k: int|
                0 <= k < self.cache.len() && (#[trigger] self.cache[k]).rule == q
                    && self.cache[k].variant == v
    }

    /// Whether `cache` is this dish's cache with the entries of rule `r` taken out and,
    /// where the rule exists, an entry for each of its variants put at the end, with
    /// what a full scan finds.
    pub open spec fn recached(self, cache: Seq<EntryView>, r: int) -> bool {
        let kept = others(self.cache, r, self.cache.len() as int);
        if 0 <= r < self.rules.len() {
            (DishView { cache: kept, ..self }).with_entries_of(cache, r)
        } else {
            cache == kept
        }
    }

    /// The world and the rules are well formed, and the cache agrees with them.
    pub open spec fn wf(self) -> bool {
        &&& self.grid.wf()
        &&& self.rules_ok()
        &&& self.cache_structured()
        &&& self.cache_sound()
        &&& self.cache_complete()
        &&& self.cache_reachable()
        &&& self.cache_distinct()
        &&& self.match_cache_exact()
        &&& self.bounds_exact()
    }
}

/// The rule by which sand falls: a cell 1 above a cell 0 changes places with it.
pub open spec fn fall_rule() -> RuleView {
    (RuleView {
        name: "fall"@,
        enabled: true,
        flip_x: false,
        flip_y: false,
        rotate: false,
        failrate: 0,
        base: Pattern {
            width: 1,
            height: 2,
            origin_x: 0,
            origin_y: 0,
            cells: seq![
                (RuleCellFrom::One(Cell(1)), RuleCellTo::One(Cell(0))),
                (RuleCellFrom::One(Cell(0)), RuleCellTo::One(Cell(1))),
            ],
        },
        variants: Seq::empty(),
    }).regenerated()
}

/// The rule by which sand slides: a cell 1 that lies on a cell 1 moves down to the
/// side where there is a cell 0; to either side, as the rule may be mirrored.
pub open spec fn slide_rule() -> RuleView {
    (RuleView {
        name: "slide"@,
        enabled: true,
        flip_x: true,
        flip_y: false,
        rotate: false,
        failrate: 0,
        base: Pattern {
            width: 2,
            height: 2,
            origin_x: 0,
            origin_y: 0,
            cells: seq![
                (RuleCellFrom::One(Cell(1)), RuleCellTo::One(Cell(0))),
                (RuleCellFrom::Any, RuleCellTo::Keep),
                (RuleCellFrom::One(Cell(1)), RuleCellTo::Keep),
                (RuleCellFrom::One(Cell(0)), RuleCellTo::One(Cell(1))),
            ],
        },
        variants: Seq::empty(),
    }).regenerated()
}

/// The entries among the first `n` of a cache that do not belong to rule `r`, in order.
pub open spec fn others(cache: Seq<EntryView>, r: int, n: int) -> Seq<EntryView>
    decreases n,
{
    if n <= 0 {
        Seq::empty()
    } else if cache[n - 1].rule != r {
        others(cache, r, n - 1).push(cache[n - 1])
    } else {
        others(cache, r, n - 1)
    }
}

/// What `others` holds: entries of the cache, none of rule `r`, every other one, and
/// no rule and variant twice where the cache holds none twice.
pub proof fn lemma_others(cache: Seq<EntryView>, r: int, n: int)
    requires
        0 <= n <= cache.len(),
    ensures
        others(cache, r, n).len() <= n,
        forall|i: int|
            0 <= i < others(cache, r, n).len() ==> (#[trigger] others(cache, r, n)[i]).rule != r
                && exists|k: int| 0 <= k < n && cache[k] == others(cache, r, n)[i],
        forall|k: int| 0 <= k < n && (#[trigger] cache[k]).rule != r ==> others(cache, r, n).contains(cache[k]),
        (forall|j: int, k: int|
            0 <= j < k < cache.len() && cache[j].rule != r && cache[k].rule != r ==> !((
            #[trigger] cache[j]).rule == (#[trigger] cache[k]).rule && cache[j].variant
                == cache[k].variant)) ==> (forall|i: int, j: int|
            0 <= i < j < others(cache, r, n).len() ==> !((#[trigger] others(cache, r, n)[i]).rule == (
            #[trigger] others(cache, r, n)[j]).rule && others(cache, r, n)[i].variant == others(
                cache,
                r,
                n,
            )[j].variant)),
        (forall|k: int| 0 <= k < n ==> (#[trigger] cache[k]).rule != r) ==> others(cache, r, n)
            == cache.subrange(0, n),
    decreases n,
{
    if n > 0 {
        let rest = others(cache, r, n - 1);
        let all = others(cache, r, n);
        lemma_others(cache, r, n - 1);
        assert forall|i: int| 0 <= i < all.len() implies (#[trigger] all[i]).rule != r && exists|k: int|
            0 <= k < n && cache[k] == all[i] by {
            if i < rest.len() {
                assert(all[i] == rest[i]);
                let k = choose|k: int| 0 <= k < n - 1 && cache[k] == rest[i];
                assert(0 <= k < n && cache[k] == all[i]);
            } else {
                assert(cache[n - 1] == all[i]);
            }
        }
        assert forall|k: int| 0 <= k < n && (#[trigger] cache[k]).rule != r implies all.contains(
            cache[k],
        ) by {
            if k < n - 1 {
                let i = choose|i: int| 0 <= i < rest.len() && rest[i] == cache[k];
                assert(all[i] == cache[k]);
            } else {
                assert(all[rest.len() as int] == cache[k]);
            }
        }
        if forall|j: int, k: int|
            0 <= j < k < cache.len() && cache[j].rule != r && cache[k].rule != r ==> !((
            #[trigger] cache[j]).rule == (#[trigger] cache[k]).rule && cache[j].variant
                == cache[k].variant) {
            assert forall|i: int, j: int| 0 <= i < j < all.len() implies !((#[trigger] all[i]).rule == (
            #[trigger] all[j]).rule && all[i].variant == all[j].variant) by {
                if j < rest.len() {
                    assert(all[i] == rest[i] && all[j] == rest[j]);
                } else {
                    assert(all[i] == rest[i]);
                    let k = choose|k: int| 0 <= k < n - 1 && cache[k] == rest[i];
                    assert(cache[k].rule != r && cache[n - 1].rule != r);
                }
            }
        }
        if forall|k: int| 0 <= k < n ==> (#[trigger] cache[k]).rule != r {
            assert(rest == cache.subrange(0, n - 1));
            assert(all =~= cache.subrange(0, n));
        }
    } else {
        assert(others(cache, r, n) =~= cache.subrange(0, n));
    }
}

/// The rules and variants whose lists, among the first `n` entries of the cache, hold
/// the anchor `a`: each once, in the order of the cache.
pub open spec fn hits_at(cache: Seq<EntryView>, a: Anchor, n: int) -> Seq<(int, int)>
    decreases n,
{
    if n <= 0 {
        Seq::empty()
    } else if cache[n - 1].matches.contains(a) {
        hits_at(cache, a, n - 1).push((cache[n - 1].rule, cache[n - 1].variant))
    } else {
        hits_at(cache, a, n - 1)
    }
}

/// Whether `hit` is the rule and variant of one of the first `n` entries of the
/// cache that lists the anchor `a`.
pub open spec fn is_hit(cache: Seq<EntryView>, a: Anchor, n: int, hit: (int, int)) -> bool {
    exists|k: int|
        0 <= k < n && (#[trigger] cache[k]).matches.contains(a) && hit == (cache[k].rule, cache[k].variant)
}

/// What `hits_at` holds: the rule and variant of each of the first `n` entries that
/// lists the anchor, and no rule and variant twice where the cache holds none twice.
pub proof fn lemma_hits_at(rules: Seq<RuleView>, cache: Seq<EntryView>, a: Anchor, n: int)
    requires
        cache_structured(rules, cache),
        0 <= n <= cache.len(),
    ensures
        forall|i: int|
            0 <= i < hits_at(cache, a, n).len() ==> is_hit(cache, a, n, #[trigger] hits_at(cache, a, n)[i]),
        forall|hit: (int, int)| is_hit(cache, a, n, hit) ==> hits_at(cache, a, n).contains(hit),
        hits_at(cache, a, n).no_duplicates(),
    decreases n,
{
    let all = hits_at(cache, a, n);
    if n > 0 {
        let rest = hits_at(cache, a, n - 1);
        let last = (cache[n - 1].rule, cache[n - 1].variant);
        lemma_hits_at(rules, cache, a, n - 1);
        assert forall|i: int| 0 <= i < all.len() implies is_hit(cache, a, n, #[trigger] all[i]) by {
            if i < rest.len() {
                assert(is_hit(cache, a, n - 1, rest[i]));
                let k = choose|k: int|
                    0 <= k < n - 1 && (#[trigger] cache[k]).matches.contains(a) && rest[i] == (
                        cache[k].rule,
                        cache[k].variant,
                    );
                assert(0 <= k < n && cache[k].matches.contains(a));
            } else {
                assert(cache[n - 1].matches.contains(a) && all[i] == last);
            }
        }
        assert forall|hit: (int, int)| is_hit(cache, a, n, hit) implies all.contains(hit) by {
            let k = choose|k: int|
                0 <= k < n && (#[trigger] cache[k]).matches.contains(a) && hit == (
                    cache[k].rule,
                    cache[k].variant,
                );
            if k < n - 1 {
                assert(is_hit(cache, a, n - 1, hit));
                let i = choose|i: int| 0 <= i < rest.len() && rest[i] == hit;
                assert(all[i] == rest[i]);
            } else {
                assert(all[rest.len() as int] == last);
            }
        }
        assert forall|i: int, j: int| 0 <= i < all.len() && 0 <= j < all.len() && i != j implies all[i]
            != all[j] by {
            if i < rest.len() && j < rest.len() {
                assert(all[i] == rest[i] && all[j] == rest[j]);
            } else {
                let inner = if i < rest.len() { i } else { j };
                assert(is_hit(cache, a, n - 1, rest[inner]));
                let k = choose|k: int|
                    0 <= k < n - 1 && (#[trigger] cache[k]).matches.contains(a) && rest[inner] == (
                        cache[k].rule,
                        cache[k].variant,
                    );
                assert(!(cache[k].rule == cache[n - 1].rule && cache[k].variant
                    == cache[n - 1].variant));
                assert(all[rest.len() as int] == last);
            }
        }
    } else {
        assert(all.len() == 0);
    }
}

/// Pairs of indices, as stored.
pub open spec fn pairs(list: Seq<(usize, usize)>) -> Seq<(int, int)> {
    Seq::new(list.len(), |i: int| (list[i].0 as int, list[i].1 as int))
}

/// Two lists in rising order that hold the same numbers are the same list.
pub proof fn lemma_rising_lists_agree(a: Seq<int>, b: Seq<int>)
    requires
        forall|i: int, j: int| 0 <= i < j < a.len() ==> a[i] < a[j],
        forall|i: int, j: int| 0 <= i < j < b.len() ==> b[i] < b[j],
        forall|k: int| a.contains(k) <==> b.contains(k),
    ensures
        a == b,
    decreases a.len(),
{
    if a.len() == 0 {
        if b.len() > 0 {
            assert(b.contains(b[0]));
        }
        assert(a =~= b);
    } else {
        let m = a.last();
        assert(a.contains(m));
        assert(b.contains(m));
        let n = b.last();
        assert(b.contains(n));
        assert(a.contains(n));
        let i = choose|i: int| 0 <= i < a.len() && a[i] == n;
        let j = choose|j: int| 0 <= j < b.len() && b[j] == m;
        assert(m == n);
        let a2 = a.drop_last();
        let b2 = b.drop_last();
        assert forall|k: int| a2.contains(k) <==> b2.contains(k) by {
            if a2.contains(k) {
                let i = choose|i: int| 0 <= i < a2.len() && a2[i] == k;
                assert(a[i] == k && a.contains(k));
                let j = choose|j: int| 0 <= j < b.len() && b[j] == k;
                assert(k < m);
                assert(b2[j] == k);
            }
            if b2.contains(k) {
                let j = choose|j: int| 0 <= j < b2.len() && b2[j] == k;
                assert(b[j] == k && b.contains(k));
                let i = choose|i: int| 0 <= i < a.len() && a[i] == k;
                assert(k < n);
                assert(a2[i] == k);
            }
        }
        lemma_rising_lists_agree(a2, b2);
        assert(a =~= a2.push(m));
        assert(b =~= b2.push(n));
    }
}

/// The cache determines which of its entries `match_cache` names.
pub proof fn lemma_match_cache_is_determined(cache: Seq<EntryView>, a: Seq<int>, b: Seq<int>)
    requires
        match_cache_exact(cache, a),
        match_cache_exact(cache, b),
    ensures
        a == b,
{
    lemma_rising_lists_agree(a, b);
}

/// The world, the rules and the groups determine what a rebuild leaves in the cache:
/// two caches that hold one entry for each variant of each enabled rule, in the order
/// of the rules and variants, each with what a full scan finds, are the same cache.
pub proof fn lemma_fresh_cache_is_determined(
    grid: Grid,
    rules: Seq<RuleView>,
    groups: Seq<GroupView>,
    a: Seq<EntryView>,
    b: Seq<EntryView>,
)
    requires
        cache_structured(rules, a),
        cache_fresh(grid, rules, groups, a),
        cache_structured(rules, b),
        cache_fresh(grid, rules, groups, b),
    ensures
        a == b,
{
    let keys_a = Seq::new(a.len(), |k: int| (a[k].rule, a[k].variant));
    let keys_b = Seq::new(b.len(), |k: int| (b[k].rule, b[k].variant));
    assert forall|key: Anchor| keys_a.contains(key) <==> keys_b.contains(key) by {
        if keys_a.contains(key) {
            let k = choose|k: int| 0 <= k < keys_a.len() && keys_a[k] == key;
            assert(lists(rules, a[k].rule, a[k].variant));
            let j = choose|j: int|
                0 <= j < b.len() && (#[trigger] b[j]).rule == key.0 && b[j].variant == key.1;
            assert(keys_b[j] == key);
        }
        if keys_b.contains(key) {
            let k = choose|k: int| 0 <= k < keys_b.len() && keys_b[k] == key;
            assert(lists(rules, b[k].rule, b[k].variant));
            let j = choose|j: int|
                0 <= j < a.len() && (#[trigger] a[j]).rule == key.0 && a[j].variant == key.1;
            assert(keys_a[j] == key);
        }
    }
    assert forall|i: int, j: int| 0 <= i < j < keys_a.len() implies scanned_before(
        keys_a[i],
        keys_a[j],
    ) by {
        assert(a[i].rule < a[j].rule || (a[i].rule == a[j].rule && a[i].variant < a[j].variant));
    }
    assert forall|i: int, j: int| 0 <= i < j < keys_b.len() implies scanned_before(
        keys_b[i],
        keys_b[j],
    ) by {
        assert(b[i].rule < b[j].rule || (b[i].rule == b[j].rule && b[i].variant < b[j].variant));
    }
    lemma_scans_agree(keys_a, keys_b);
    assert(a.len() == b.len());
    assert forall|k: int| 0 <= k < a.len() implies a[k] == b[k] by {
        assert(keys_a[k] == keys_b[k]);
        let p = pattern_of(rules, a[k]);
        assert(pattern_of(rules, b[k]) == p);
        assert(is_full_scan(a[k].matches, grid, groups, p));
        assert(is_full_scan(b[k].matches, grid, groups, p));
        lemma_scans_agree(a[k].matches, b[k].matches);
    }
    assert(a =~= b);
}

/// The world, the rules, the cell types and the groups determine what a rebuild
/// leaves of a dish: a second rebuild changes nothing.
pub proof fn lemma_fresh_dish_is_determined(a: DishView, b: DishView)
    requires
        a.wf(),
        a.cache_fresh(),
        b.wf(),
        b.cache_fresh(),
        a.grid == b.grid,
        a.rules == b.rules,
        a.types == b.types,
        a.groups == b.groups,
    ensures
        a == b,
{
    lemma_fresh_cache_is_determined(a.grid, a.rules, a.groups, a.cache, b.cache);
    lemma_match_cache_is_determined(a.cache, a.match_cache, b.match_cache);
    lemma_bounds_are_determined(
        a.rules,
        a.max_rule_width,
        a.max_rule_height,
        b.rules,
        b.max_rule_width,
        b.max_rule_height,
    );
}

/// The variants of the enabled rules determine the greatest width and height.
pub proof fn lemma_bounds_are_determined(
    rules: Seq<RuleView>,
    width: int,
    height: int,
    others: Seq<RuleView>,
    other_width: int,
    other_height: int,
)
    requires
        bounds_exact(rules, width, height),
        bounds_exact(others, other_width, other_height),
        forall|r: int, v: int| #[trigger] lists(rules, r, v) <==> #[trigger] lists(others, r, v),
        forall|r: int, v: int| #[trigger] lists(rules, r, v) ==> rules[r].variants[v] == others[r].variants[v],
    ensures
        width == other_width,
        height == other_height,
{
    if width > 1 {
        let (r, v) = choose|r: int, v: int| #[trigger]
            lists(rules, r, v) && rules[r].variants[v].width == width;
        assert(lists(others, r, v));
    }
    if other_width > 1 {
        let (r, v) = choose|r: int, v: int| #[trigger]
            lists(others, r, v) && others[r].variants[v].width == other_width;
        assert(lists(rules, r, v));
    }
    if height > 1 {
        let (r, v) = choose|r: int, v: int| #[trigger]
            lists(rules, r, v) && rules[r].variants[v].height == height;
        assert(lists(others, r, v));
    }
    if other_height > 1 {
        let (r, v) = choose|r: int, v: int| #[trigger]
            lists(others, r, v) && others[r].variants[v].height == other_height;
        assert(lists(rules, r, v));
    }
}

/// A disabled rule at the end of the rules changes nothing else: where two dishes
/// differ by such a rule only and have the same cache, they agree on what is derived
/// from the rules and the cache.
pub proof fn lemma_disabled_rule_changes_nothing(before: DishView, after: DishView)
    requires
        before.wf(),
        after.wf(),
        after.rules.len() == before.rules.len() + 1,
        after.rules.drop_last() == before.rules,
        !after.rules.last().enabled,
        after.cache == before.cache,
    ensures
        after.match_cache == before.match_cache,
        after.max_rule_width == before.max_rule_width,
        after.max_rule_height == before.max_rule_height,
{
    lemma_match_cache_is_determined(before.cache, before.match_cache, after.match_cache);
    assert forall|r: int, v: int| #[trigger] lists(before.rules, r, v) <==> #[trigger] lists(
        after.rules,
        r,
        v,
    ) by {
        if 0 <= r < before.rules.len() {
            assert(after.rules.drop_last()[r] == after.rules[r]);
        }
    }
    assert forall|r: int, v: int| #[trigger] lists(before.rules, r, v) implies before.rules[r].variants[v]
        == after.rules[r].variants[v] by {
        assert(after.rules.drop_last()[r] == after.rules[r]);
    }
    lemma_bounds_are_determined(
        before.rules,
        before.max_rule_width,
        before.max_rule_height,
        after.rules,
        after.max_rule_width,
        after.max_rule_height,
    );
}

/// Where rule `r` of a dish whose cache agrees with it is replaced, or put at the end
/// of the rules, the cache still agrees with the dish as far as it speaks of the other
/// rules; and where the rule was put at the end, the cache holds no entry of it.
pub proof fn lemma_other_rules_stay_settled(before: DishView, after: DishView, r: int)
    requires
        before.wf(),
        after == (DishView { rules: after.rules, ..before }),
        after.rules_ok(),
        before.rules.len() <= after.rules.len(),
        forall|q: int|
            0 <= q < after.rules.len() && q != r ==> q < before.rules.len() && #[trigger] after.rules[q]
                == before.rules[q],
    ensures
        after.settled_but(r),
        r >= before.rules.len() ==> others(after.cache, r, after.cache.len() as int) == after.cache,
{
    assert forall|k: int| 0 <= k < after.cache.len() implies lists(
        before.rules,
        (#[trigger] after.cache[k]).rule,
        after.cache[k].variant,
    ) && (after.cache[k].rule != r ==> lists(after.rules, after.cache[k].rule, after.cache[k].variant)
        && pattern_of(after.rules, after.cache[k]) == pattern_of(before.rules, before.cache[k])) by {
        assert(lists(before.rules, before.cache[k].rule, before.cache[k].variant));
        if after.cache[k].rule != r {
            assert(after.rules[after.cache[k].rule] == before.rules[before.cache[k].rule]);
        }
    }
    assert forall|q: int, v: int| #[trigger] lists(after.rules, q, v) && q != r implies exists|k: int|
        0 <= k < after.cache.len() && (#[trigger] after.cache[k]).rule == q && after.cache[k].variant
            == v by {
        assert(after.rules[q] == before.rules[q]);
        assert(lists(before.rules, q, v));
        let k = choose|k: int|
            0 <= k < before.cache.len() && (#[trigger] before.cache[k]).rule == q
                && before.cache[k].variant == v;
        assert(after.cache[k] == before.cache[k]);
    }
    if r >= before.rules.len() {
        lemma_others(after.cache, r, after.cache.len() as int);
        assert(after.cache.subrange(0, after.cache.len() as int) =~= after.cache);
    }
}

/// Once the entries of rule `r` are renewed in a dish whose cache agreed with it for
/// the other rules, and `match_cache` and the greatest width and height are derived
/// again, the cache agrees with the dish. Where it agreed before and there is no rule
/// `r`, nothing has changed.
pub proof fn lemma_recached_agrees(start: DishView, after: DishView, r: int)
    requires
        start.settled_but(r),
        after == (DishView {
            cache: after.cache,
            match_cache: after.match_cache,
            max_rule_width: after.max_rule_width,
            max_rule_height: after.max_rule_height,
            ..start
        }),
        start.recached(after.cache, r),
        after.match_cache_exact(),
        after.bounds_exact(),
    ensures
        after.wf(),
        start.wf() && !(0 <= r < start.rules.len()) ==> after == start,
{
    let kept = others(start.cache, r, start.cache.len() as int);
    lemma_others(start.cache, r, start.cache.len() as int);
    assert forall|k: int| 0 <= k < after.cache.len() implies {
        &&& lists(after.rules, (#[trigger] after.cache[k]).rule, after.cache[k].variant)
        &&& all_reachable(after.cache[k].matches)
        &&& after.cache[k].matches.no_duplicates()
        &&& sound(after.cache[k].matches, after.grid, after.groups, pattern_of(after.rules, after.cache[k]))
        &&& complete(
            after.cache[k].matches,
            after.grid,
            after.groups,
            pattern_of(after.rules, after.cache[k]),
        )
        &&& (k < kept.len() ==> after.cache[k].rule != r)
        &&& (k >= kept.len() ==> after.cache[k].rule == r && after.cache[k].variant == k - kept.len())
    } by {
        if k < kept.len() {
            assert(after.cache[k] == kept[k]);
            let j = choose|j: int| 0 <= j < start.cache.len() && start.cache[j] == kept[k];
            assert(start.cache[j].rule != r);
        } else {
            let v = k - kept.len();
            let e = after.cache[kept.len() + v];
            assert(e.rule == r && e.variant == v);
            lemma_full_scan(e.matches, after.grid, after.groups, pattern_of(after.rules, e));
        }
    }
    assert(cache_structured(after.rules, after.cache)) by {
        assert forall|q: int, v: int| #[trigger] lists(after.rules, q, v) implies exists|k: int|
            0 <= k < after.cache.len() && (#[trigger] after.cache[k]).rule == q && after.cache[k].variant
                == v by {
            if q != r {
                let j = choose|j: int|
                    0 <= j < start.cache.len() && (#[trigger] start.cache[j]).rule == q
                        && start.cache[j].variant == v;
                assert(kept.contains(start.cache[j]));
                let i = choose|i: int| 0 <= i < kept.len() && kept[i] == start.cache[j];
                assert(after.cache[i] == kept[i]);
            } else {
                let e = after.cache[kept.len() + v];
                assert(e.rule == r && e.variant == v);
            }
        }
        assert forall|j: int, k: int| 0 <= j < k < after.cache.len() implies !((
        #[trigger] after.cache[j]).rule == (#[trigger] after.cache[k]).rule && after.cache[j].variant
            == after.cache[k].variant) by {
            if k < kept.len() {
                assert(after.cache[j] == kept[j] && after.cache[k] == kept[k]);
            }
        }
    }
    if start.wf() && !(0 <= r < start.rules.len()) {
        assert forall|k: int| 0 <= k < start.cache.len() implies (#[trigger] start.cache[k]).rule
            != r by {
            assert(lists(start.rules, start.cache[k].rule, start.cache[k].variant));
        }
        assert(start.cache.subrange(0, start.cache.len() as int) =~= start.cache);
        lemma_match_cache_is_determined(start.cache, start.match_cache, after.match_cache);
        lemma_bounds_are_determined(
            start.rules,
            start.max_rule_width,
            start.max_rule_height,
            after.rules,
            after.max_rule_width,
            after.max_rule_height,
        );
    }
}

/// In a dish whose cache agrees with it, `match_cache` names exactly the entries of
/// the cache that list a match.
pub proof fn lemma_match_cache_names_the_entries_with_matches(dish: DishView, k: int)
    requires
        dish.wf(),
    ensures
        dish.match_cache.contains(k) <==> 0 <= k < dish.cache.len() && dish.cache[k].matches.len() > 0,
{
}

/// In a dish whose cache agrees with it, every anchor in the cache is a match: the
/// variant that it is listed for, laid with its top-left corner the origin's offset
/// before the anchor, matches the world.
pub proof fn lemma_cached_anchors_match(dish: DishView, k: int, i: int)
    requires
        dish.wf(),
        0 <= k < dish.cache.len(),
        0 <= i < dish.cache[k].matches.len(),
    ensures
        lists(dish.rules, dish.cache[k].rule, dish.cache[k].variant),
        ({
            let p = pattern_of(dish.rules, dish.cache[k]);
            let a = dish.cache[k].matches[i];
            matches_at(dish.grid, dish.groups, p, a.0 - p.origin_x, a.1 - p.origin_y)
        }),
{
}

/// A dish whose cache agrees with it can stand wherever the cache only has to agree for
/// the other rules.
pub proof fn lemma_wf_is_settled(dish: DishView, r: int)
    requires
        dish.wf(),
    ensures
        dish.settled_but(r),
{
}

/// An edit of the world inside `rect`, followed by a repair of the cache around it,
/// leaves in every entry of the cache the anchors that a rebuild would list, no more
/// and no fewer. This holds where the cache agreed with the world before the edit, and
/// where nothing is listed that a rebuild does not look at: neither before the edit,
/// among the anchors that the repair keeps, nor by the repair, which adds every match
/// of the range that it scans. After an edit inside the grid the repair scans no
/// anchor that a rebuild does not look at.
pub proof fn lemma_repair_agrees_with_rebuild(
    before: DishView,
    edited: Grid,
    after: DishView,
    rebuilt: DishView,
    rect: Rect,
)
    requires
        before.wf(),
        before.grid.same_outside(edited, rect.x, rect.y, rect.w, rect.h),
        after.repaired_from(DishView { grid: edited, ..before }, rect),
        rebuilt.wf(),
        rebuilt.cache_fresh(),
        rebuilt.grid == after.grid,
        rebuilt.rules == after.rules,
        rebuilt.groups == after.groups,
        forall|k: int, i: int|
            0 <= k < before.cache.len() && 0 <= i < before.cache[k].matches.len() && !pattern_of(
                before.rules,
                before.cache[k],
            ).touches(rect, #[trigger] before.cache[k].matches[i]) ==> pattern_of(
                before.rules,
                before.cache[k],
            ).in_scan_range(before.cache[k].matches[i]),
        rect.on_grid() || forall|k: int, a: Anchor|
            0 <= k < before.cache.len() && pattern_of(before.rules, before.cache[k]).in_rescan_range(
                rect,
                a,
            ) && reachable(a) && #[trigger] pattern_of(before.rules, before.cache[k]).matches_anchored(
                edited,
                before.groups,
                a,
            ) ==> pattern_of(before.rules, before.cache[k]).in_scan_range(a),
    ensures
        forall|k: int, j: int|
            0 <= k < after.cache.len() && 0 <= j < rebuilt.cache.len() && (
            #[trigger] after.cache[k]).rule == (#[trigger] rebuilt.cache[j]).rule
                && after.cache[k].variant == rebuilt.cache[j].variant
                ==> after.cache[k].matches.to_set() == rebuilt.cache[j].matches.to_set(),
{
    assert forall|k: int, j: int|
        0 <= k < after.cache.len() && 0 <= j < rebuilt.cache.len() && (#[trigger] after.cache[k]).rule
            == (#[trigger] rebuilt.cache[j]).rule && after.cache[k].variant
            == rebuilt.cache[j].variant implies after.cache[k].matches.to_set()
        == rebuilt.cache[j].matches.to_set() by {
        let e = before.cache[k];
        let p = pattern_of(before.rules, e);
        let listed = e.matches;
        assert(lists(before.rules, e.rule, e.variant));
        assert(before.rules[e.rule].wf());
        assert(p.wf());
        assert(pattern_of(rebuilt.rules, rebuilt.cache[j]) == p);
        assert(pattern_of(after.rules, after.cache[k]) == p);
        lemma_full_scan(rebuilt.cache[j].matches, edited, before.groups, p);
        lemma_repair_set(listed, after.cache[k].matches, edited, before.groups, p, rect);
        assert(sound(listed, before.grid, before.groups, p));
        assert(complete(listed, before.grid, before.groups, p));
        assert forall|a: Anchor| !p.touches(rect, a) implies (listed.to_set().contains(a)
            <==> #[trigger] rebuilt_set(edited, before.groups, p).contains(a)) by {
            lemma_match_is_local(before.grid, edited, before.groups, p, rect, a);
            if listed.contains(a) {
                let i = choose|i: int| 0 <= i < listed.len() && listed[i] == a;
                assert(p.in_scan_range(listed[i]));
                assert(p.matches_anchored(before.grid, before.groups, listed[i]));
            }
        }
        assert forall|a: Anchor|
            p.in_rescan_range(rect, a) && reachable(a) && #[trigger] p.matches_anchored(
                edited,
                before.groups,
                a,
            ) implies p.in_scan_range(a) by {
            if rect.on_grid() {
                lemma_rescan_within_scan(p, rect, a);
            }
        }
        lemma_repair_then_rebuild(listed.to_set(), edited, before.groups, p, rect);
    }
}

/// A rule with fail rate 255 leaves the dish as it was on every roll but the highest.
pub proof fn lemma_highest_failrate_changes_nothing(
    before: DishView,
    after: DishView,
    r: int,
    v: int,
    a: Anchor,
    fail_roll: u8,
    picks: Seq<usize>,
)
    requires
        before.rules[r].failrate == 255,
        fail_roll != 255,
        before.applied_at(after, r, v, a, fail_roll, picks),
    ensures
        after == before,
{
}

/// The number of matches in the first `n` entries of a cache.
pub open spec fn total_matches(cache: Seq<EntryView>, n: int) -> int
    decreases n,
{
    if n <= 0 {
        0
    } else {
        total_matches(cache, n - 1) + cache[n - 1].matches.len()
    }
}

} // verus!
