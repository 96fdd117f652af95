//! The list of positions at which one variant matches: how it is found by a scan and
//! repaired after an edit.

use vstd::prelude::*;
use crate::cell::{group_views, CellGroup, GroupView};
use crate::matching::{is_scan, reachable, scanned_before, times, Anchor, Rect, FAR};
use crate::pattern::{Pattern, SubRule};
use crate::world::{Grid, World};

verus! {

/// The matches of one variant of one rule.
#[derive(Debug)]
pub(crate) struct RuleCache {
    pub(crate) rule: usize,
    pub(crate) variant: usize,
    pub(crate) matches: Vec<(i128, i128)>,
}

/// The matches of one variant of one rule, as a mathematical value.
pub struct EntryView {
    pub rule: int,
    pub variant: int,
    pub matches: Seq<Anchor>,
}

/// The anchors of a stored list.
pub open spec fn anchors(list: Seq<(i128, i128)>) -> Seq<Anchor> {
    Seq::new(list.len(), |i: int| (list[i].0 as int, list[i].1 as int))
}

/// Whether every anchor of the list is near enough to be listed.
pub open spec fn all_reachable(list: Seq<Anchor>) -> bool {
    forall|i: int| 0 <= i < list.len() ==> reachable(#[trigger] list[i])
}

impl RuleCache {
    pub(crate) open spec fn view(&self) -> EntryView {
        EntryView {
            rule: self.rule as int,
            variant: self.variant as int,
            matches: anchors(self.matches@),
        }
    }
}

/// The entries of a stored cache, each as a mathematical value.
pub(crate) open spec fn entry_views(cache: Seq<RuleCache>) -> Seq<EntryView> {
    Seq::new(cache.len(), |i: int| cache[i]@)
}

/// Adding an anchor to a list adds one to its count and leaves the other counts.
pub proof fn lemma_times_push(list: Seq<Anchor>, b: Anchor, a: Anchor)
    ensures
        times(list.push(b), a) == times(list, a) + (if a == b {
            1nat
        } else {
            0
        }),
{
    broadcast use vstd::seq_lib::group_to_multiset_ensures;
    broadcast use vstd::multiset::group_multiset_axioms;

}

/// Putting the last anchor of a list in the place of the one at `i` takes one from the
/// count of the anchor that was there and leaves the other counts.
pub proof fn lemma_times_swap_remove(list: Seq<Anchor>, i: int, a: Anchor)
    requires
        0 <= i < list.len(),
    ensures
        times(list.update(i, list.last()).drop_last(), a) == times(list, a) - (if a == list[i] {
            1nat
        } else {
            0
        }),
{
    broadcast use vstd::seq_lib::group_to_multiset_ensures;
    broadcast use vstd::multiset::group_multiset_axioms;

    let moved = list.update(i, list.last());
    assert(moved.drop_last() =~= moved.remove(moved.len() - 1));
    assert(moved.to_multiset() == list.to_multiset().insert(list.last()).remove(list[i]));
    assert(moved.remove(moved.len() - 1).to_multiset() == moved.to_multiset().remove(
        moved[moved.len() - 1],
    ));
    assert(list.contains(list[i]));
    assert(list.contains(list.last()));
}

/// What a scan has found when it stands at column `px`, row `py`.
spec fn is_scan_up_to(
    found: Seq<Anchor>,
    grid: Grid,
    groups: Seq<GroupView>,
    p: Pattern,
    x_min: int,
    y_min: int,
    y_max: int,
    px: int,
    py: int,
) -> bool {
    &&& forall|i: int, j: int| 0 <= i < j < found.len() ==> scanned_before(found[i], found[j])
    &&& forall|a: Anchor|
        #![trigger found.contains(a)]
        #![trigger p.matches_anchored(grid, groups, a)]
        found.contains(a) <==> x_min <= a.0 && y_min <= a.1 < y_max && (a.0 < px || (a.0 == px && a.1
            < py)) && p.matches_anchored(grid, groups, a)
}

proof fn lemma_scan_found(
    found: Seq<Anchor>,
    grid: Grid,
    groups: Seq<GroupView>,
    p: Pattern,
    x_min: int,
    y_min: int,
    y_max: int,
    px: int,
    py: int,
)
    requires
        is_scan_up_to(found, grid, groups, p, x_min, y_min, y_max, px, py),
        x_min <= px,
        y_min <= py < y_max,
        p.matches_anchored(grid, groups, (px, py)),
    ensures
        is_scan_up_to(found.push((px, py)), grid, groups, p, x_min, y_min, y_max, px, py + 1),
{
    let b = (px, py);
    let more = found.push(b);
    assert forall|i: int, j: int| 0 <= i < j < more.len() implies scanned_before(more[i], more[j]) by {
        if j == found.len() {
            assert(found.contains(found[i]));
        }
    }
    assert forall|a: Anchor|
        #![trigger more.contains(a)]
        #![trigger p.matches_anchored(grid, groups, a)]
        more.contains(a) <==> x_min <= a.0 && y_min <= a.1 < y_max && (a.0 < px || (a.0 == px && a.1 < py
            + 1)) && p.matches_anchored(grid, groups, a) by {
        if found.contains(a) {
            let i = choose|i: int| 0 <= i < found.len() && found[i] == a;
            assert(more[i] == a);
        }
        if a == b {
            assert(more[found.len() as int] == b);
        }
        if more.contains(a) {
            let i = choose|i: int| 0 <= i < more.len() && more[i] == a;
            if i < found.len() {
                assert(found[i] == a);
            }
        }
    }
}

/// The anchors of columns `x_min` to `x_max` and rows `y_min` to `y_max` at which
/// `variant` matches, column by column and down each column.
pub(crate) fn find_matches(
    world: &World,
    groups: &Vec<CellGroup>,
    variant: &SubRule,
    x_min: i128,
    x_max: i128,
    y_min: i128,
    y_max: i128,
) -> (found: Vec<(i128, i128)>)
    requires
        world.wf(),
        variant.wf(),
        -FAR <= x_min,
        x_max <= FAR + 1,
        -FAR <= y_min,
        y_max <= FAR + 1,
    ensures
        is_scan(
            anchors(found@),
            world@,
            group_views(groups@),
            variant@,
            x_min as int,
            x_max as int,
            y_min as int,
            y_max as int,
        ),
        all_reachable(anchors(found@)),
{
    let mut found: Vec<(i128, i128)> = Vec::new();
    if x_min >= x_max || y_min >= y_max {
        return found;
    }
    let origin_x = variant.origin_x();
    let origin_y = variant.origin_y();
    let mut px: i128 = x_min;
    while px < x_max
        invariant
            world.wf(),
            variant.wf(),
            origin_x == variant@.origin_x,
            origin_y == variant@.origin_y,
            -FAR <= x_min <= px <= x_max <= FAR + 1,
            -FAR <= y_min < y_max <= FAR + 1,
            all_reachable(anchors(found@)),
            is_scan_up_to(
                anchors(found@),
                world@,
                group_views(groups@),
                variant@,
                x_min as int,
                y_min as int,
                y_max as int,
                px as int,
                y_min as int,
            ),
        decreases x_max - px,
    {
        let mut py: i128 = y_min;
        while py < y_max
            invariant
                world.wf(),
                variant.wf(),
                origin_x == variant@.origin_x,
                origin_y == variant@.origin_y,
                -FAR <= x_min <= px < x_max <= FAR + 1,
                -FAR <= y_min <= py <= y_max <= FAR + 1,
                all_reachable(anchors(found@)),
                is_scan_up_to(
                    anchors(found@),
                    world@,
                    group_views(groups@),
                    variant@,
                    x_min as int,
                    y_min as int,
                    y_max as int,
                    px as int,
                    py as int,
                ),
            decreases y_max - py,
        {
            let corner_x = px - origin_x as i128;
            let corner_y = py - origin_y as i128;
            if world.subrule_matches(corner_x, corner_y, variant, groups) {
                proof {
                    lemma_scan_found(
                        anchors(found@),
                        world@,
                        group_views(groups@),
                        variant@,
                        x_min as int,
                        y_min as int,
                        y_max as int,
                        px as int,
                        py as int,
                    );
                }
                let ghost shorter = anchors(found@);
                found.push((px, py));
                assert(anchors(found@) =~= shorter.push((px as int, py as int)));
            } else {
                assert(!variant@.matches_anchored(
                    world@,
                    group_views(groups@),
                    (px as int, py as int),
                ));
            }
            py += 1;
        }
        px += 1;
    }
    found
}

/// Whether `matches` holds the anchor (`x`, `y`).
pub(crate) fn holds_anchor(matches: &Vec<(i128, i128)>, x: i128, y: i128) -> (held: bool)
    ensures
        held == anchors(matches@).contains((x as int, y as int)),
{
    let mut i: usize = 0;
    while i < matches.len()
        invariant
            i <= matches.len(),
            forall|k: int| 0 <= k < i ==> #[trigger] anchors(matches@)[k] != (x as int, y as int),
        decreases matches.len() - i,
    {
        let (mx, my) = matches[i];
        if mx == x && my == y {
            assert(anchors(matches@)[i as int] == (x as int, y as int));
            return true;
        }
        i += 1;
    }
    false
}

/// Adds to `matches` the anchors of `found` that it does not hold, in their order.
pub(crate) fn push_new(matches: &mut Vec<(i128, i128)>, found: &Vec<(i128, i128)>)
    requires
        anchors(found@).no_duplicates(),
        all_reachable(anchors(found@)),
        all_reachable(anchors(old(matches)@)),
    ensures
        all_reachable(anchors(final(matches)@)),
        forall|a: Anchor|
            #[trigger] times(anchors(final(matches)@), a) == (if times(anchors(old(matches)@), a) > 0 {
                times(anchors(old(matches)@), a)
            } else if anchors(found@).contains(a) {
                1nat
            } else {
                0
            }),
{
    let ghost kept = anchors(matches@);
    let ghost new = anchors(found@);
    let mut i: usize = 0;
    while i < found.len()
        invariant
            i <= found.len(),
            kept == anchors(old(matches)@),
            new == anchors(found@),
            new.no_duplicates(),
            all_reachable(new),
            all_reachable(anchors(matches@)),
            forall|a: Anchor|
                #[trigger] times(anchors(matches@), a) == (if times(kept, a) > 0 {
                    times(kept, a)
                } else if new.subrange(0, i as int).contains(a) {
                    1nat
                } else {
                    0
                }),
        decreases found.len() - i,
    {
        let (x, y) = found[i];
        let ghost b = (x as int, y as int);
        let ghost listed = anchors(matches@);
        assert(new[i as int] == b);
        let held = holds_anchor(matches, x, y);
        if !held {
            matches.push((x, y));
        }
        proof {
            broadcast use vstd::seq_lib::group_to_multiset_ensures;

            let now = anchors(matches@);
            let seen = new.subrange(0, i as int);
            let more = new.subrange(0, i + 1);
            assert(more =~= seen.push(b));
            if !held {
                assert(now =~= listed.push(b));
            }
            assert(listed.contains(b) <==> times(listed, b) > 0);
            assert(!seen.contains(b)) by {
                if seen.contains(b) {
                    let k = choose|k: int| 0 <= k < seen.len() && seen[k] == b;
                    assert(new[k] == new[i as int]);
                }
            }
            assert forall|a: Anchor|
                #[trigger] times(now, a) == (if times(kept, a) > 0 {
                    times(kept, a)
                } else if more.contains(a) {
                    1nat
                } else {
                    0
                }) by {
                lemma_times_push(listed, b, a);
                assert(times(listed, a) == (if times(kept, a) > 0 {
                    times(kept, a)
                } else if seen.contains(a) {
                    1nat
                } else {
                    0
                }));
                if a == b {
                    assert(more[i as int] == b);
                } else {
                    if seen.contains(a) {
                        let k = choose|k: int| 0 <= k < seen.len() && seen[k] == a;
                        assert(more[k] == a);
                    }
                    if more.contains(a) {
                        let k = choose|k: int| 0 <= k < more.len() && more[k] == a;
                        assert(seen[k] == a);
                    }
                }
            }
            assert forall|k: int| 0 <= k < now.len() implies reachable(#[trigger] now[k]) by {
                if k < listed.len() {
                    assert(now[k] == listed[k]);
                } else {
                    assert(reachable(new[i as int]));
                }
            }
        }
        i += 1;
    }
    assert(new.subrange(0, found@.len() as int) =~= new);
}

/// Whether two rectangles overlap, as half-open ranges on both axes.
pub(crate) fn overlap(
    x1: i128,
    y1: i128,
    w1: usize,
    h1: usize,
    x2: i128,
    y2: i128,
    w2: usize,
    h2: usize,
) -> (overlapping: bool)
    requires
        -4 * FAR <= x1 <= 4 * FAR,
        -4 * FAR <= y1 <= 4 * FAR,
        -4 * FAR <= x2 <= 4 * FAR,
        -4 * FAR <= y2 <= 4 * FAR,
    ensures
        overlapping == (Rect { x: x1 as int, y: y1 as int, w: w1 as int, h: h1 as int }).overlaps(
            Rect { x: x2 as int, y: y2 as int, w: w2 as int, h: h2 as int },
        ),
{
    x2 < x1 + w1 as i128 && x1 < x2 + w2 as i128 && y2 < y1 + h1 as i128 && y1 < y2 + h2 as i128
}

/// Takes out of `matches` every anchor at which `variant` covers a position of the
/// rectangle at (`x`, `y`) of size `w` by `h`.
pub(crate) fn discard_overlapping(
    matches: &mut Vec<(i128, i128)>,
    variant: &SubRule,
    x: i128,
    y: i128,
    w: usize,
    h: usize,
)
    requires
        variant.wf(),
        all_reachable(anchors(old(matches)@)),
        -2 * FAR <= x <= 2 * FAR,
        -2 * FAR <= y <= 2 * FAR,
    ensures
        all_reachable(anchors(final(matches)@)),
        forall|a: Anchor|
            #[trigger] times(anchors(final(matches)@), a) == (if variant@.touches(
                Rect { x: x as int, y: y as int, w: w as int, h: h as int },
                a,
            ) {
                0
            } else {
                times(anchors(old(matches)@), a)
            }),
{
    let ghost rect = Rect { x: x as int, y: y as int, w: w as int, h: h as int };
    let ghost before = anchors(matches@);
    let rule_width = variant.width();
    let rule_height = variant.height();
    let origin_x = variant.origin_x();
    let origin_y = variant.origin_y();
    let mut i: usize = 0;
    while i < matches.len()
        invariant
            variant.wf(),
            rule_width == variant@.width,
            rule_height == variant@.height,
            origin_x == variant@.origin_x,
            origin_y == variant@.origin_y,
            rect == (Rect { x: x as int, y: y as int, w: w as int, h: h as int }),
            -2 * FAR <= x <= 2 * FAR,
            -2 * FAR <= y <= 2 * FAR,
            i <= matches.len(),
            all_reachable(anchors(matches@)),
            forall|k: int| 0 <= k < i ==> !variant@.touches(rect, #[trigger] anchors(matches@)[k]),
            forall|a: Anchor|
                !variant@.touches(rect, a) ==> #[trigger] times(anchors(matches@), a) == times(before, a),
        decreases matches.len() - i,
    {
        let match_pos = matches[i];
        assert(reachable(anchors(matches@)[i as int]));
        let m_corner_x = match_pos.0 - origin_x as i128;
        let m_corner_y = match_pos.1 - origin_y as i128;
        if overlap(x, y, w, h, m_corner_x, m_corner_y, rule_width, rule_height) {
            let ghost longer = anchors(matches@);
            matches.swap_remove(i);
            proof {
                assert(anchors(matches@) =~= longer.update(i as int, longer.last()).drop_last());
                assert forall|a: Anchor| !variant@.touches(rect, a) implies #[trigger] times(
                    anchors(matches@),
                    a,
                ) == times(before, a) by {
                    lemma_times_swap_remove(longer, i as int, a);
                }
                assert forall|k: int| 0 <= k < anchors(matches@).len() implies reachable(
                    #[trigger] anchors(matches@)[k],
                ) by {
                    if k == i {
                        assert(reachable(longer[longer.len() - 1]));
                    } else {
                        assert(reachable(longer[k]));
                    }
                }
                assert forall|k: int| 0 <= k < i implies !variant@.touches(
                    rect,
                    #[trigger] anchors(matches@)[k],
                ) by {
                    assert(anchors(matches@)[k] == longer[k]);
                }
            }
        } else {
            i += 1;
        }
    }
    proof {
        broadcast use vstd::seq_lib::group_to_multiset_ensures;

        let after = anchors(matches@);
        assert forall|a: Anchor| variant@.touches(rect, a) implies #[trigger] times(after, a) == 0 by {
            if after.contains(a) {
                let k = choose|k: int| 0 <= k < after.len() && after[k] == a;
                assert(!variant@.touches(rect, after[k]));
            }
        }
    }
}

} // verus!
