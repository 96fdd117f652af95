//! Where a template matches: anchors, the range that is scanned for them, and what an
//! edit of the grid can change.

use vstd::prelude::*;
use crate::cell::GroupView;
use crate::pattern::Pattern;
use crate::world::{matches_at, Grid, CHUNK_SIZE};

verus! {

/// A position that a match is reported at.
pub type Anchor = (int, int);

/// How far from the grid's corner an anchor can lie and still be listed. A full scan
/// stays far within; only repairs around matches that lie outside the grid move
/// outwards, by a template's size at a time.
pub const FAR: i128 = 0x10_0000_0000_0000_0000_0000_0000;

/// Whether an anchor lies near enough to be listed.
pub open spec fn reachable(a: Anchor) -> bool {
    -FAR <= a.0 <= FAR && -FAR <= a.1 <= FAR
}

/// An axis-aligned rectangle of grid positions: columns `x` to `x + w`, rows `y` to
/// `y + h`, the upper ends left out.
pub struct Rect {
    pub x: int,
    pub y: int,
    pub w: int,
    pub h: int,
}

impl Rect {
    pub open spec fn holds(self, px: int, py: int) -> bool {
        self.x <= px < self.x + self.w && self.y <= py < self.y + self.h
    }

    /// Whether the two rectangles overlap, as half-open ranges on both axes.
    pub open spec fn overlaps(self, other: Rect) -> bool {
        &&& other.x < self.x + self.w
        &&& self.x < other.x + other.w
        &&& other.y < self.y + self.h
        &&& self.y < other.y + other.h
    }

    /// Whether the rectangle lies on the grid.
    pub open spec fn on_grid(self) -> bool {
        &&& 0 <= self.x
        &&& 0 <= self.w
        &&& self.x + self.w <= CHUNK_SIZE
        &&& 0 <= self.y
        &&& 0 <= self.h
        &&& self.y + self.h <= CHUNK_SIZE
    }
}

impl Pattern {
    /// The rectangle that the template covers when it is reported at `a`: its top-left
    /// corner lies the origin's offset before the anchor.
    pub open spec fn footprint(self, a: Anchor) -> Rect {
        Rect { x: a.0 - self.origin_x, y: a.1 - self.origin_y, w: self.width, h: self.height }
    }

    /// Whether the template, reported at `a`, matches the grid.
    pub open spec fn matches_anchored(self, grid: Grid, groups: Seq<GroupView>, a: Anchor) -> bool {
        matches_at(grid, groups, self, a.0 - self.origin_x, a.1 - self.origin_y)
    }

    /// The anchors that a full scan visits: the grid, widened on each side by one less
    /// than the template's size.
    pub open spec fn in_scan_range(self, a: Anchor) -> bool {
        &&& -(self.width - 1) <= a.0 < CHUNK_SIZE + (self.width - 1)
        &&& -(self.height - 1) <= a.1 < CHUNK_SIZE + (self.height - 1)
    }

    /// The anchors that are visited again after an edit of `rect`: the rectangle,
    /// widened on each side by one less than the template's size.
    pub open spec fn in_rescan_range(self, rect: Rect, a: Anchor) -> bool {
        &&& rect.x - (self.width - 1) <= a.0 < rect.x + rect.w + (self.width - 1)
        &&& rect.y - (self.height - 1) <= a.1 < rect.y + rect.h + (self.height - 1)
    }

    /// Whether the template, reported at `a`, covers a position of `rect`.
    pub open spec fn touches(self, rect: Rect, a: Anchor) -> bool {
        rect.overlaps(self.footprint(a))
    }
}

/// How often `a` occurs in `list`.
pub open spec fn times(list: Seq<Anchor>, a: Anchor) -> nat {
    list.to_multiset().count(a)
}

/// Whether `a` comes before `b` in the order of a scan: column by column, and down
/// each column.
pub open spec fn scanned_before(a: Anchor, b: Anchor) -> bool {
    a.0 < b.0 || (a.0 == b.0 && a.1 < b.1)
}

/// Whether `found` is what a scan of columns `x_min` to `x_max` and rows `y_min` to
/// `y_max` finds: each anchor there at which the template matches, once, in the order
/// of the scan.
pub open spec fn is_scan(
    found: Seq<Anchor>,
    grid: Grid,
    groups: Seq<GroupView>,
    p: Pattern,
    x_min: int,
    x_max: int,
    y_min: int,
    y_max: int,
) -> bool {
    &&& forall|i: int, j: int| 0 <= i < j < found.len() ==> scanned_before(found[i], found[j])
    &&& forall|a: Anchor|
        #![trigger found.contains(a)]
        #![trigger p.matches_anchored(grid, groups, a)]
        found.contains(a) <==> x_min <= a.0 < x_max && y_min <= a.1 < y_max && p.matches_anchored(
            grid,
            groups,
            a,
        )
}

/// Whether `found` is what a full scan finds.
pub open spec fn is_full_scan(
    found: Seq<Anchor>,
    grid: Grid,
    groups: Seq<GroupView>,
    p: Pattern,
) -> bool {
    is_scan(
        found,
        grid,
        groups,
        p,
        -(p.width - 1),
        CHUNK_SIZE + (p.width - 1),
        -(p.height - 1),
        CHUNK_SIZE + (p.height - 1),
    )
}

/// Whether `after` is `before` repaired around `rect`: an anchor that was listed and
/// does not touch the rectangle occurs as often as before; any other anchor is listed
/// once where it lies in the rescanned range, near enough to be listed, and the
/// template matches there; and else not at all. So only new matches are added: an
/// anchor that is kept is not listed again.
pub open spec fn is_repair(
    before: Seq<Anchor>,
    after: Seq<Anchor>,
    grid: Grid,
    groups: Seq<GroupView>,
    p: Pattern,
    rect: Rect,
) -> bool {
    forall|a: Anchor|
        #[trigger] times(after, a) == (if !p.touches(rect, a) && times(before, a) > 0 {
            times(before, a)
        } else if p.in_rescan_range(rect, a) && reachable(a) && p.matches_anchored(grid, groups, a) {
            1nat
        } else {
            0
        })
}

/// Every listed anchor is a match.
pub open spec fn sound(list: Seq<Anchor>, grid: Grid, groups: Seq<GroupView>, p: Pattern) -> bool {
    forall|i: int| 0 <= i < list.len() ==> p.matches_anchored(grid, groups, #[trigger] list[i])
}

/// Every match in the range of a full scan is listed.
pub open spec fn complete(list: Seq<Anchor>, grid: Grid, groups: Seq<GroupView>, p: Pattern) -> bool {
    forall|a: Anchor|
        p.in_scan_range(a) && #[trigger] p.matches_anchored(grid, groups, a) ==> list.contains(a)
}

/// The anchors that a full scan reports, as a set.
pub open spec fn rebuilt_set(grid: Grid, groups: Seq<GroupView>, p: Pattern) -> Set<Anchor> {
    Set::new(|a: Anchor| p.in_scan_range(a) && p.matches_anchored(grid, groups, a))
}

/// The anchors listed after a repair around `rect`, as a set.
pub open spec fn repaired_set(
    before: Set<Anchor>,
    grid: Grid,
    groups: Seq<GroupView>,
    p: Pattern,
    rect: Rect,
) -> Set<Anchor> {
    Set::new(
        |a: Anchor|
            (before.contains(a) && !p.touches(rect, a)) || (p.in_rescan_range(rect, a) && reachable(a)
                && p.matches_anchored(grid, groups, a)),
    )
}

/// A full scan lists matches only, and every match in its range.
pub proof fn lemma_full_scan(found: Seq<Anchor>, grid: Grid, groups: Seq<GroupView>, p: Pattern)
    requires
        is_full_scan(found, grid, groups, p),
    ensures
        sound(found, grid, groups, p),
        complete(found, grid, groups, p),
        found.no_duplicates(),
        found.to_set() == rebuilt_set(grid, groups, p),
{
    assert forall|i: int| 0 <= i < found.len() implies p.matches_anchored(
        grid,
        groups,
        #[trigger] found[i],
    ) by {
        assert(found.contains(found[i]));
    }
    lemma_scan_order_is_strict(found);
    assert(found.to_set() =~= rebuilt_set(grid, groups, p));
}

/// A list in the order of a scan holds no anchor twice.
pub proof fn lemma_scan_order_is_strict(found: Seq<Anchor>)
    requires
        forall|i: int, j: int| 0 <= i < j < found.len() ==> scanned_before(found[i], found[j]),
    ensures
        found.no_duplicates(),
{
    assert forall|i: int, j: int| 0 <= i < found.len() && 0 <= j < found.len() && i != j implies found[i]
        != found[j] by {
        if i < j {
            assert(scanned_before(found[i], found[j]));
        } else {
            assert(scanned_before(found[j], found[i]));
        }
    }
}

/// Two lists in the order of a scan that hold the same anchors are the same list.
pub proof fn lemma_scans_agree(a: Seq<Anchor>, b: Seq<Anchor>)
    requires
        forall|i: int, j: int| 0 <= i < j < a.len() ==> scanned_before(a[i], a[j]),
        forall|i: int, j: int| 0 <= i < j < b.len() ==> scanned_before(b[i], b[j]),
        forall|k: Anchor| a.contains(k) <==> b.contains(k),
    ensures
        a == b,
    decreases a.len(),
{
    if a.len() == 0 {
        if b.len() > 0 {
            assert(b.contains(b[0]));
        }
        assert(a =~= b);
    } else {
        let m = a.last();
        assert(a.contains(m));
        assert(b.contains(m));
        let n = b.last();
        assert(b.contains(n));
        assert(a.contains(n));
        let i = choose|i: int| 0 <= i < a.len() && a[i] == n;
        let j = choose|j: int| 0 <= j < b.len() && b[j] == m;
        if i < a.len() - 1 {
            assert(scanned_before(a[i], a[a.len() - 1]));
        }
        if j < b.len() - 1 {
            assert(scanned_before(b[j], b[b.len() - 1]));
        }
        assert(m == n);
        let a2 = a.drop_last();
        let b2 = b.drop_last();
        assert forall|k: Anchor| a2.contains(k) <==> b2.contains(k) by {
            if a2.contains(k) {
                let i = choose|i: int| 0 <= i < a2.len() && a2[i] == k;
                assert(a[i] == k && a.contains(k));
                assert(scanned_before(a[i], a[a.len() - 1]));
                let j = choose|j: int| 0 <= j < b.len() && b[j] == k;
                assert(b2[j] == k);
            }
            if b2.contains(k) {
                let j = choose|j: int| 0 <= j < b2.len() && b2[j] == k;
                assert(b[j] == k && b.contains(k));
                assert(scanned_before(b[j], b[b.len() - 1]));
                let i = choose|i: int| 0 <= i < a.len() && a[i] == k;
                assert(a2[i] == k);
            }
        }
        lemma_scans_agree(a2, b2);
        assert(a =~= a2.push(m));
        assert(b =~= b2.push(n));
    }
}

/// In a list that holds no anchor twice, an anchor occurs once or not at all.
pub proof fn lemma_times_distinct(list: Seq<Anchor>, a: Anchor)
    requires
        list.no_duplicates(),
    ensures
        times(list, a) == (if list.contains(a) {
            1nat
        } else {
            0
        }),
{
    broadcast use vstd::seq_lib::group_to_multiset_ensures;

    list.lemma_multiset_has_no_duplicates();
    assert(list.contains(a) <==> times(list, a) > 0);
}

/// A repair of a list that holds no anchor twice leaves a list that holds none twice.
pub proof fn lemma_repair_keeps_distinct(
    before: Seq<Anchor>,
    after: Seq<Anchor>,
    grid: Grid,
    groups: Seq<GroupView>,
    p: Pattern,
    rect: Rect,
)
    requires
        before.no_duplicates(),
        is_repair(before, after, grid, groups, p, rect),
    ensures
        after.no_duplicates(),
{
    assert forall|a: Anchor| after.to_multiset().contains(a) implies after.to_multiset().count(a)
        == 1 by {
        lemma_times_distinct(before, a);
        assert(times(after, a) > 0);
    }
    after.lemma_multiset_has_no_duplicates_conv();
}

/// A repair is described by sets as by counts.
pub proof fn lemma_repair_set(
    before: Seq<Anchor>,
    after: Seq<Anchor>,
    grid: Grid,
    groups: Seq<GroupView>,
    p: Pattern,
    rect: Rect,
)
    requires
        is_repair(before, after, grid, groups, p, rect),
    ensures
        after.to_set() == repaired_set(before.to_set(), grid, groups, p, rect),
{
    broadcast use vstd::seq_lib::group_to_multiset_ensures;

    assert forall|a: Anchor|
        after.to_set().contains(a) <==> repaired_set(before.to_set(), grid, groups, p, rect).contains(
            a,
        ) by {
        assert(after.contains(a) <==> times(after, a) > 0);
        assert(before.contains(a) <==> times(before, a) > 0);
    }
    assert(after.to_set() =~= repaired_set(before.to_set(), grid, groups, p, rect));
}

/// Whether a template matches depends only on the cells it covers: an edit of `rect`
/// leaves every match whose template does not touch the rectangle as it was.
pub proof fn lemma_match_is_local(
    old_grid: Grid,
    grid: Grid,
    groups: Seq<GroupView>,
    p: Pattern,
    rect: Rect,
    a: Anchor,
)
    requires
        old_grid.same_outside(grid, rect.x, rect.y, rect.w, rect.h),
        !p.touches(rect, a),
    ensures
        p.matches_anchored(old_grid, groups, a) == p.matches_anchored(grid, groups, a),
{
    let cx = a.0 - p.origin_x;
    let cy = a.1 - p.origin_y;
    assert forall|dx: int, dy: int| p.inside(dx, dy) implies old_grid.get(cx + dx, cy + dy) == grid.get(
        cx + dx,
        cy + dy,
    ) by {
        assert(!rect.holds(cx + dx, cy + dy));
    }
}

/// A template that touches an edited rectangle is reported inside the rescanned range.
pub proof fn lemma_touching_is_rescanned(p: Pattern, rect: Rect, a: Anchor)
    requires
        p.wf(),
        p.touches(rect, a),
    ensures
        p.in_rescan_range(rect, a),
{
}

/// After an edit of `rect`, a repair around it makes a list that was sound and
/// complete for the old grid sound and complete for the new one.
pub proof fn lemma_repair_restores(
    before: Seq<Anchor>,
    after: Seq<Anchor>,
    old_grid: Grid,
    grid: Grid,
    groups: Seq<GroupView>,
    p: Pattern,
    rect: Rect,
)
    requires
        p.wf(),
        sound(before, old_grid, groups, p),
        complete(before, old_grid, groups, p),
        old_grid.same_outside(grid, rect.x, rect.y, rect.w, rect.h),
        is_repair(before, after, grid, groups, p, rect),
    ensures
        sound(after, grid, groups, p),
        complete(after, grid, groups, p),
{
    broadcast use vstd::seq_lib::group_to_multiset_ensures;

    assert forall|i: int| 0 <= i < after.len() implies p.matches_anchored(
        grid,
        groups,
        #[trigger] after[i],
    ) by {
        let a = after[i];
        assert(after.contains(a));
        assert(times(after, a) > 0);
        if !(p.in_rescan_range(rect, a) && reachable(a) && p.matches_anchored(grid, groups, a)) {
            assert(times(before, a) > 0);
            assert(before.contains(a));
            let j = choose|j: int| 0 <= j < before.len() && before[j] == a;
            assert(p.matches_anchored(old_grid, groups, before[j]));
            lemma_match_is_local(old_grid, grid, groups, p, rect, a);
        }
    }
    assert forall|a: Anchor|
        p.in_scan_range(a) && #[trigger] p.matches_anchored(grid, groups, a) implies after.contains(
        a,
    ) by {
        if p.touches(rect, a) {
            lemma_touching_is_rescanned(p, rect, a);
            assert(times(after, a) > 0);
        } else {
            lemma_match_is_local(old_grid, grid, groups, p, rect, a);
            assert(before.contains(a));
            assert(times(before, a) > 0);
            assert(times(after, a) > 0);
        }
    }
}

/// A repair leaves exactly what a full scan reports, where the list agreed with the
/// full scan away from the edited rectangle and the repair adds no anchor that a full
/// scan does not visit.
pub proof fn lemma_repair_then_rebuild(
    before: Set<Anchor>,
    grid: Grid,
    groups: Seq<GroupView>,
    p: Pattern,
    rect: Rect,
)
    requires
        p.wf(),
        forall|a: Anchor|
            !p.touches(rect, a) ==> (before.contains(a) <==> #[trigger] rebuilt_set(
                grid,
                groups,
                p,
            ).contains(a)),
        forall|a: Anchor|
            p.in_rescan_range(rect, a) && reachable(a) && #[trigger] p.matches_anchored(
                grid,
                groups,
                a,
            ) ==> p.in_scan_range(a),
    ensures
        repaired_set(before, grid, groups, p, rect) == rebuilt_set(grid, groups, p),
{
    assert forall|a: Anchor|
        repaired_set(before, grid, groups, p, rect).contains(a) <==> rebuilt_set(
            grid,
            groups,
            p,
        ).contains(a) by {
        if p.touches(rect, a) {
            lemma_touching_is_rescanned(p, rect, a);
        }
        assert(rebuilt_set(grid, groups, p).contains(a) <==> p.in_scan_range(a)
            && p.matches_anchored(grid, groups, a));
    }
    assert(repaired_set(before, grid, groups, p, rect) =~= rebuilt_set(grid, groups, p));
}

/// After an edit inside the grid, the rescanned range lies within the range of a full
/// scan.
pub proof fn lemma_rescan_within_scan(p: Pattern, rect: Rect, a: Anchor)
    requires
        p.wf(),
        rect.on_grid(),
        p.in_rescan_range(rect, a),
    ensures
        p.in_scan_range(a),
{
}

} // verus!
