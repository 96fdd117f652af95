//! What the application of a template writes to the world.

use vstd::prelude::*;
use crate::cell::{group_views, Cell, CellGroup, GroupView};
use crate::matching::FAR;
use crate::pattern::{lemma_position_index, Pattern, RuleCellTo, SubRule};
use crate::world::{lemma_grid_ext, Grid, World, CHUNK_SIZE};

verus! {

/// Whether an application of a rule is given up: a rule with fail rate 0 never is, any
/// other on every roll below its fail rate.
pub open spec fn aborts(failrate: u8, roll: u8) -> bool {
    failrate != 0 && failrate > roll
}

/// A rule with fail rate 255 is given up on every roll but the highest.
pub proof fn lemma_highest_failrate(roll: u8)
    requires
        roll != 255,
    ensures
        aborts(255, roll),
{
}

/// Whether an application of a rule with the given fail rate is given up on `roll`.
pub fn gives_up(failrate: u8, roll: u8) -> (given_up: bool)
    ensures
        given_up == aborts(failrate, roll),
{
    failrate != 0 && failrate > roll
}

/// The number drawn for the template entry with index `i`; 0 where none was drawn.
pub open spec fn pick_at(picks: Seq<usize>, i: int) -> int {
    if 0 <= i < picks.len() {
        picks[i] as int
    } else {
        0
    }
}

/// Whether the template entry with index `i` has a number drawn for it: it writes one
/// of a group that exists and holds a cell.
pub open spec fn draws(p: Pattern, groups: Seq<GroupView>, i: int) -> bool {
    0 <= i < p.cells.len() && match p.cells[i].1 {
        RuleCellTo::GroupRandom(g) => g < groups.len() && groups[g as int].cells.len() > 0,
        _ => false,
    }
}

/// The cell of a group that the number `pick` chooses, or `None` where the group does
/// not exist or is empty.
pub open spec fn chosen(groups: Seq<GroupView>, g: int, pick: int) -> Option<Cell> {
    if 0 <= g < groups.len() && groups[g].cells.len() > 0 {
        Some(groups[g].cells[pick % (groups[g].cells.len() as int)])
    } else {
        None
    }
}

/// The cell that an entry writes, or `None` where it writes nothing. A copy reads the
/// grid as it was before the application, at its source inside the template laid on
/// (`corner_x`, `corner_y`); it writes nothing where the source lies outside the
/// template or outside the grid.
pub open spec fn written(
    to: RuleCellTo,
    grid: Grid,
    groups: Seq<GroupView>,
    p: Pattern,
    corner_x: int,
    corner_y: int,
    pick: int,
) -> Option<Cell> {
    match to {
        RuleCellTo::Keep => None,
        RuleCellTo::One(cell) => Some(cell),
        RuleCellTo::GroupRandom(g) => chosen(groups, g as int, pick),
        RuleCellTo::Copy(cx, cy) => if p.inside(cx as int, cy as int) {
            grid.get(corner_x + cx, corner_y + cy)
        } else {
            None
        },
    }
}

/// The cell at position (`x`, `y`) of the grid once template `p` has been applied with
/// its top-left corner on (`corner_x`, `corner_y`).
pub open spec fn cell_after(
    grid: Grid,
    groups: Seq<GroupView>,
    p: Pattern,
    corner_x: int,
    corner_y: int,
    picks: Seq<usize>,
    x: int,
    y: int,
) -> Option<Cell> {
    let dx = x - corner_x;
    let dy = y - corner_y;
    if Grid::inside(x, y) && p.inside(dx, dy) {
        match written(
            p.at(dx, dy).1,
            grid,
            groups,
            p,
            corner_x,
            corner_y,
            pick_at(picks, dx + p.width * dy),
        ) {
            Some(cell) => Some(cell),
            None => grid.get(x, y),
        }
    } else {
        grid.get(x, y)
    }
}

/// The grid once template `p` has been applied with its top-left corner on
/// (`corner_x`, `corner_y`): every entry writes at its own position, all of them
/// reading the grid as it was before.
pub open spec fn applied(
    grid: Grid,
    groups: Seq<GroupView>,
    p: Pattern,
    corner_x: int,
    corner_y: int,
    picks: Seq<usize>,
) -> Grid {
    Grid {
        cells: Seq::new(
            (CHUNK_SIZE * CHUNK_SIZE) as nat,
            |i: int|
                match cell_after(
                    grid,
                    groups,
                    p,
                    corner_x,
                    corner_y,
                    picks,
                    i / (CHUNK_SIZE as int),
                    i % (CHUNK_SIZE as int),
                ) {
                    Some(cell) => cell,
                    None => grid.cells[i],
                },
        ),
    }
}

/// An application changes the grid only where the template lies.
pub proof fn lemma_applied_is_local(
    grid: Grid,
    groups: Seq<GroupView>,
    p: Pattern,
    corner_x: int,
    corner_y: int,
    picks: Seq<usize>,
)
    requires
        grid.wf(),
    ensures
        applied(grid, groups, p, corner_x, corner_y, picks).wf(),
        forall|x: int, y: int| #[trigger]
            applied(grid, groups, p, corner_x, corner_y, picks).get(x, y) == cell_after(
                grid,
                groups,
                p,
                corner_x,
                corner_y,
                picks,
                x,
                y,
            ),
        grid.same_outside(
            applied(grid, groups, p, corner_x, corner_y, picks),
            corner_x,
            corner_y,
            p.width,
            p.height,
        ),
{
    let after = applied(grid, groups, p, corner_x, corner_y, picks);
    assert forall|x: int, y: int| #[trigger]
        after.get(x, y) == cell_after(grid, groups, p, corner_x, corner_y, picks, x, y) by {
        if Grid::inside(x, y) {
            let i = x * CHUNK_SIZE + y;
            assert(i / (CHUNK_SIZE as int) == x && i % (CHUNK_SIZE as int) == y);
        }
    }
}

impl World {
    /// The number drawn for the entry at (`dx`, `dy`) of a template of the given width.
    fn pick_for(picks: &Vec<usize>, width: usize, height: usize, dx: usize, dy: usize) -> (pick: usize)
        requires
            dx < width,
            dy < height,
            width * height <= usize::MAX,
        ensures
            pick == pick_at(picks@, dx + width * dy),
    {
        proof {
            lemma_position_index(dx as int, dy as int, width as int, height as int);
        }
        let i = dx + width * dy;
        if i < picks.len() {
            picks[i]
        } else {
            0
        }
    }

    /// The cell of group `group_id` that the number `pick` chooses.
    pub fn choose_from(groups: &Vec<CellGroup>, group_id: usize, pick: usize) -> (cell: Option<Cell>)
        ensures
            cell == chosen(group_views(groups@), group_id as int, pick as int),
    {
        if group_id >= groups.len() {
            return None;
        }
        let group = &groups[group_id];
        if !group.cells.is_empty() {
            let i = pick % group.cells.len();
            Some(group.cells[i])
        } else {
            None
        }
    }

    /// Applies `variant` with its top-left corner on (`corner_x`, `corner_y`): every
    /// entry writes at its own position; `picks` holds, by the index of the entry, the
    /// numbers by which the entries that write one of a group choose.
    pub fn apply_variant(
        &mut self,
        corner_x: i128,
        corner_y: i128,
        variant: &SubRule,
        groups: &Vec<CellGroup>,
        picks: &Vec<usize>,
    )
        requires
            old(self).wf(),
            variant.wf(),
            -2 * FAR <= corner_x <= 2 * FAR,
            -2 * FAR <= corner_y <= 2 * FAR,
        ensures
            final(self).wf(),
            final(self)@ == applied(
                old(self)@,
                group_views(groups@),
                variant@,
                corner_x as int,
                corner_y as int,
                picks@,
            ),
    {
        let width = variant.width();
        let height = variant.height();
        let ghost before = self@;
        let ghost p = variant@;
        let ghost gs = group_views(groups@);

        let mut old_state: Vec<Option<Cell>> = Vec::new();
        let mut sy: usize = 0;
        while sy < height
            invariant
                self.wf(),
                self@ == before,
                variant.wf(),
                width == p.width,
                height == p.height,
                p == variant@,
                -2 * FAR <= corner_x <= 2 * FAR,
                -2 * FAR <= corner_y <= 2 * FAR,
                sy <= height,
                old_state@.len() == width * sy,
                forall|x: int, y: int|
                    0 <= x < width && 0 <= y < sy ==> #[trigger] old_state@[x + width * y] == before.get(
                        corner_x + x,
                        corner_y + y,
                    ),
            decreases height - sy,
        {
            let mut sx: usize = 0;
            while sx < width
                invariant
                    self.wf(),
                    self@ == before,
                    variant.wf(),
                    width == p.width,
                    height == p.height,
                    p == variant@,
                    -2 * FAR <= corner_x <= 2 * FAR,
                    -2 * FAR <= corner_y <= 2 * FAR,
                    sy < height,
                    sx <= width,
                    old_state@.len() == width * sy + sx,
                    forall|x: int, y: int|
                        0 <= x < width && 0 <= y < sy ==> #[trigger] old_state@[x + width * y]
                            == before.get(corner_x + x, corner_y + y),
                    forall|x: int|
                        0 <= x < sx ==> #[trigger] old_state@[x + width * sy] == before.get(
                            corner_x + x,
                            corner_y + sy,
                        ),
                decreases width - sx,
            {
                let ghost shorter = old_state@;
                old_state.push(self.get_cell_from(corner_x, corner_y, sx, sy));
                proof {
                    assert forall|x: int, y: int| 0 <= x < width && 0 <= y < sy implies #[trigger] old_state@[x
                        + width * y] == before.get(corner_x + x, corner_y + y) by {
                        lemma_position_index(x, y, width as int, sy as int);
                        assert(width * sy <= shorter.len()) by (nonlinear_arith)
                            requires
                                shorter.len() == width * sy + sx,
                                sx >= 0,
                        ;
                        assert(old_state@[x + width * y] == shorter[x + width * y]);
                    }
                }
                sx += 1;
            }
            proof {
                assert(width * sy + width == width * (sy + 1)) by (nonlinear_arith);
            }
            sy += 1;
        }

        proof {
            vstd::std_specs::vec::axiom_spec_len(&old_state);
        }
        let mut dx: usize = 0;
        while dx < width
            invariant
                width * height <= usize::MAX,
                self.wf(),
                before.wf(),
                variant.wf(),
                width == p.width,
                height == p.height,
                p == variant@,
                gs == group_views(groups@),
                -2 * FAR <= corner_x <= 2 * FAR,
                -2 * FAR <= corner_y <= 2 * FAR,
                dx <= width,
                old_state@.len() == width * height,
                forall|x: int, y: int|
                    0 <= x < width && 0 <= y < height ==> #[trigger] old_state@[x + width * y]
                        == before.get(corner_x + x, corner_y + y),
                forall|x: int, y: int|
                    Grid::inside(x, y) ==> #[trigger] self@.get(x, y) == (if x - corner_x < dx {
                        cell_after(before, gs, p, corner_x as int, corner_y as int, picks@, x, y)
                    } else {
                        before.get(x, y)
                    }),
            decreases width - dx,
        {
            let mut dy: usize = 0;
            while dy < height
                invariant
                    width * height <= usize::MAX,
                    self.wf(),
                    before.wf(),
                    variant.wf(),
                    width == p.width,
                    height == p.height,
                    p == variant@,
                    gs == group_views(groups@),
                    -2 * FAR <= corner_x <= 2 * FAR,
                    -2 * FAR <= corner_y <= 2 * FAR,
                    dx < width,
                    dy <= height,
                    old_state@.len() == width * height,
                    forall|x: int, y: int|
                        0 <= x < width && 0 <= y < height ==> #[trigger] old_state@[x + width * y]
                            == before.get(corner_x + x, corner_y + y),
                    forall|x: int, y: int|
                        Grid::inside(x, y) ==> #[trigger] self@.get(x, y) == (if x - corner_x < dx || (x
                            - corner_x == dx && y - corner_y < dy) {
                            cell_after(before, gs, p, corner_x as int, corner_y as int, picks@, x, y)
                        } else {
                            before.get(x, y)
                        }),
                decreases height - dy,
            {
                let px = corner_x + dx as i128;
                let py = corner_y + dy as i128;
                let ghost now = self@;
                let pick = Self::pick_for(picks, width, height, dx, dy);
                let to_write = match variant.get(dx, dy).1 {
                    RuleCellTo::One(rule_cell) => Some(rule_cell),
                    RuleCellTo::GroupRandom(group_id) => Self::choose_from(groups, group_id, pick),
                    RuleCellTo::Copy(x, y) => {
                        if x >= width || y >= height {
                            // the copy source is outside the rule bounds
                            None
                        } else {
                            proof {
                                lemma_position_index(x as int, y as int, width as int, height as int);
                            }
                            // if the copy source is outside the world, do nothing
                            old_state[x + width * y]
                        }
                    },
                    RuleCellTo::Keep => None,
                };
                assert(to_write == written(
                    p.at(dx as int, dy as int).1,
                    before,
                    gs,
                    p,
                    corner_x as int,
                    corner_y as int,
                    pick as int,
                )) by {
                    if let RuleCellTo::Copy(x, y) = p.at(dx as int, dy as int).1 {
                        if x < width && y < height {
                            assert(old_state@[x + width * y] == before.get(corner_x + x, corner_y + y));
                        }
                    }
                }
                if let Some(cell) = to_write {
                    self.set_cell(px, py, cell);
                }
                proof {
                    assert forall|x: int, y: int| Grid::inside(x, y) implies #[trigger] self@.get(x, y) == (
                    if x - corner_x < dx || (x - corner_x == dx && y - corner_y < dy + 1) {
                        cell_after(before, gs, p, corner_x as int, corner_y as int, picks@, x, y)
                    } else {
                        before.get(x, y)
                    }) by {
                        assert(now.get(x, y) == (if x - corner_x < dx || (x - corner_x == dx && y
                            - corner_y < dy) {
                            cell_after(before, gs, p, corner_x as int, corner_y as int, picks@, x, y)
                        } else {
                            before.get(x, y)
                        }));
                    }
                }
                dy += 1;
            }
            dx += 1;
        }
        proof {
            let target = applied(before, gs, p, corner_x as int, corner_y as int, picks@);
            lemma_applied_is_local(before, gs, p, corner_x as int, corner_y as int, picks@);
            assert forall|x: int, y: int| Grid::inside(x, y) implies self@.get(x, y) == target.get(
                x,
                y,
            ) by {
                assert(self@.get(x, y) == (if x - corner_x < width {
                    cell_after(before, gs, p, corner_x as int, corner_y as int, picks@, x, y)
                } else {
                    before.get(x, y)
                }));
            }
            lemma_grid_ext(self@, target);
        }
    }
}

} // verus!
