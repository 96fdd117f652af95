//! Rules: a base template, the symmetries it allows, and the variants that follow.

use vstd::prelude::*;
use crate::pattern::{lemma_position_index, Pattern, RuleCellFrom, RuleCellTo, SubRule};
use crate::pattern::symmetry::Symmetry;
use crate::variants::{all_wf, extended, fresh_images, lemma_extended, variants_of};

verus! {

/// How to resize a rule: the change of width and of height, then the position of the
/// old template that the new top-left corner reads.
pub type ResizeParam = (isize, isize, isize, isize);

/// A rewrite rule.
#[derive(Debug)]
pub struct Rule {
    pub name: String,
    base: SubRule,
    variants: Vec<SubRule>,
    pub enabled: bool,
    pub flip_x: bool,
    pub flip_y: bool,
    pub rotate: bool,
    /// out of 256: how often an application of the rule is given up
    pub failrate: u8,
}

/// A rule as a mathematical value.
pub struct RuleView {
    pub name: Seq<char>,
    pub enabled: bool,
    pub flip_x: bool,
    pub flip_y: bool,
    pub rotate: bool,
    pub failrate: u8,
    pub base: Pattern,
    pub variants: Seq<Pattern>,
}

/// The templates of a list, each as a mathematical value.
pub open spec fn views(subs: Seq<SubRule>) -> Seq<Pattern> {
    Seq::new(subs.len(), |i: int| subs[i]@)
}

impl RuleView {
    /// This rule with its variants derived afresh from its base and its symmetries.
    pub open spec fn regenerated(self) -> RuleView {
        RuleView {
            variants: variants_of(self.base, self.flip_x, self.flip_y, self.rotate),
            ..self
        }
    }

    /// Whether the variants are the ones that follow from the base and the symmetries.
    pub open spec fn is_current(self) -> bool {
        self.variants == variants_of(self.base, self.flip_x, self.flip_y, self.rotate)
    }

    /// The base is well formed with its origin at the top-left corner, and every
    /// variant is well formed.
    pub open spec fn wf(self) -> bool {
        &&& self.base.wf()
        &&& self.base.origin_x == 0
        &&& self.base.origin_y == 0
        &&& all_wf(self.variants)
    }
}

/// Whether a template can be resized by (`dw`, `dh`): both sides stay at least 1, and
/// a machine word can count the entries.
pub open spec fn resizable(p: Pattern, dw: int, dh: int) -> bool {
    &&& p.width + dw >= 1
    &&& p.height + dh >= 1
    &&& (p.width + dw) * (p.height + dh) <= usize::MAX
}

/// The base template after a resize by (`dw`, `dh`) that reads the old template from
/// (`dx`, `dy`) on: unchanged where it cannot be resized so; else each new position
/// (`x`, `y`) holds the old entry at (`x + dx`, `y + dy`), blank where there was none.
pub open spec fn resized(p: Pattern, dw: int, dh: int, dx: int, dy: int) -> Pattern {
    let width = p.width + dw;
    let height = p.height + dh;
    if !resizable(p, dw, dh) {
        p
    } else {
        Pattern {
            width,
            height,
            origin_x: p.origin_x,
            origin_y: p.origin_y,
            cells: Seq::new((width * height) as nat, |i: int| p.at(i % width + dx, i / width + dy)),
        }
    }
}

/// Deriving the variants a second time changes nothing.
pub proof fn lemma_regenerated_twice(rule: RuleView)
    ensures
        rule.regenerated().regenerated() == rule.regenerated(),
        rule.regenerated().is_current(),
{
}

/// Whether `variants` holds a template equal to `sub`.
fn holds_variant(variants: &Vec<SubRule>, sub: &SubRule) -> (found: bool)
    ensures
        found == views(variants@).contains(sub@),
{
    let mut i: usize = 0;
    while i < variants.len()
        invariant
            i <= variants.len(),
            forall|k: int| 0 <= k < i ==> views(variants@)[k] != sub@,
        decreases variants.len() - i,
    {
        if variants[i].same_as(sub) {
            assert(views(variants@)[i as int] == sub@);
            return true;
        }
        i += 1;
    }
    false
}

/// Adds to `variants` the images of its templates under `t` that it does not hold yet.
fn transform_variants(variants: &mut Vec<SubRule>, t: Symmetry)
    requires
        all_wf(views(old(variants)@)),
    ensures
        views(final(variants)@) == extended(views(old(variants)@), t),
        all_wf(views(final(variants)@)),
{
    let ghost before = views(variants@);
    let mut new: Vec<SubRule> = Vec::new();
    let n = variants.len();
    let mut i: usize = 0;
    while i < n
        invariant
            i <= n,
            n == variants.len(),
            views(variants@) == before,
            all_wf(before),
            views(new@) == fresh_images(before, t, i as nat),
        decreases n - i,
    {
        assert(before[i as int].wf());
        let new_variant = variants[i].transformed(t);
        if !holds_variant(variants, &new_variant) {
            let ghost shorter = views(new@);
            new.push(new_variant);
            assert(views(new@) =~= shorter.push(new_variant@));
        }
        i += 1;
    }
    proof {
        lemma_extended(before, t);
    }
    let ghost fresh = new@;
    variants.append(&mut new);
    assert(views(variants@) =~= before + views(fresh));
}

impl View for Rule {
    type V = RuleView;

    closed spec fn view(&self) -> RuleView {
        RuleView {
            name: self.name@,
            enabled: self.enabled,
            flip_x: self.flip_x,
            flip_y: self.flip_y,
            rotate: self.rotate,
            failrate: self.failrate,
            base: self.base@,
            variants: views(self.variants@),
        }
    }
}

impl Clone for Rule {
    fn clone(&self) -> (copy: Rule)
        ensures
            copy@ == self@,
    {
        let mut variants: Vec<SubRule> = Vec::new();
        let mut i: usize = 0;
        while i < self.variants.len()
            invariant
                i <= self.variants.len(),
                views(variants@) == views(self.variants@).subrange(0, i as int),
            decreases self.variants.len() - i,
        {
            let ghost shorter = views(variants@);
            variants.push(self.variants[i].clone());
            assert(views(variants@) =~= shorter.push(self.variants@[i as int]@));
            assert(views(variants@) =~= views(self.variants@).subrange(0, i + 1));
            i += 1;
        }
        assert(views(variants@) =~= views(self.variants@));
        Rule {
            name: self.name.clone(),
            base: self.base.clone(),
            variants,
            enabled: self.enabled,
            flip_x: self.flip_x,
            flip_y: self.flip_y,
            rotate: self.rotate,
            failrate: self.failrate,
        }
    }
}

impl Rule {
    /// One blank column more, before the first.
    pub const EXTEND_LEFT: ResizeParam = (1, 0, -1, 0);

    /// One blank column more, after the last.
    pub const EXTEND_RIGHT: ResizeParam = (1, 0, 0, 0);

    /// One blank row more, above the first.
    pub const EXTEND_UP: ResizeParam = (0, 1, 0, -1);

    /// One blank row more, below the last.
    pub const EXTEND_DOWN: ResizeParam = (0, 1, 0, 0);

    /// Without the first column.
    pub const SHRINK_LEFT: ResizeParam = (-1, 0, 1, 0);

    /// Without the last column.
    pub const SHRINK_RIGHT: ResizeParam = (-1, 0, 0, 0);

    /// Without the first row.
    pub const SHRINK_UP: ResizeParam = (0, -1, 0, 1);

    /// Without the last row.
    pub const SHRINK_DOWN: ResizeParam = (0, -1, 0, 0);

    pub open spec fn wf(&self) -> bool {
        self@.wf()
    }

    /// A disabled 1 by 1 rule that matches anything and changes nothing.
    pub fn new() -> (rule: Rule)
        ensures
            rule.wf(),
            rule@ == (RuleView {
                name: "new rule"@,
                enabled: false,
                flip_x: false,
                flip_y: false,
                rotate: false,
                failrate: 0,
                base: Pattern::unit(),
                variants: seq![Pattern::unit()],
            }),
            rule@.is_current(),
    {
        let mut variants: Vec<SubRule> = Vec::new();
        variants.push(SubRule::new());
        assert(views(variants@) =~= seq![Pattern::unit()]);
        Rule {
            name: "new rule".to_owned(),
            enabled: false,
            base: SubRule::new(),
            variants,
            flip_x: false,
            flip_y: false,
            rotate: false,
            failrate: 0,
        }
    }

    /// A disabled rule without symmetries whose base has the given size and entries, or
    /// `None` unless both sides are at least 1 and `contents` holds one entry per position.
    pub fn from_contents(
        name: String,
        width: usize,
        height: usize,
        contents: Vec<(RuleCellFrom, RuleCellTo)>,
    ) -> (rule: Option<Rule>)
        ensures
            rule is Some <==> 1 <= width && 1 <= height && contents@.len() == width * height,
            rule matches Some(r) ==> r.wf() && r@.is_current() && r@ == (RuleView {
                name: name@,
                enabled: false,
                flip_x: false,
                flip_y: false,
                rotate: false,
                failrate: 0,
                base: Pattern {
                    width: width as int,
                    height: height as int,
                    origin_x: 0,
                    origin_y: 0,
                    cells: contents@,
                },
                variants: seq![
                    Pattern {
                        width: width as int,
                        height: height as int,
                        origin_x: 0,
                        origin_y: 0,
                        cells: contents@,
                    },
                ],
            }),
    {
        match SubRule::from_contents(width, height, contents) {
            Some(base) => {
                let mut variants: Vec<SubRule> = Vec::new();
                variants.push(base.clone());
                assert(views(variants@) =~= seq![base@]);
                Some(
                    Rule {
                        name,
                        enabled: false,
                        base,
                        variants,
                        flip_x: false,
                        flip_y: false,
                        rotate: false,
                        failrate: 0,
                    },
                )
            },
            None => None,
        }
    }

    /// The entry of the base template at column `x`, row `y`; blank outside it.
    pub fn get(&self, x: usize, y: usize) -> (entry: (RuleCellFrom, RuleCellTo))
        requires
            self.wf(),
        ensures
            entry == self@.base.at(x as int, y as int),
    {
        self.base.get(x, y)
    }

    /// A handle on the entry of the base template at (`x`, `y`). The variants are left
    /// as they were: derive them again once the entry is rewritten.
    pub fn get_mut(&mut self, x: usize, y: usize) -> (entry: &mut (RuleCellFrom, RuleCellTo))
        requires
            old(self).wf(),
            x < old(self)@.base.width,
            y < old(self)@.base.height,
        ensures
            *entry == old(self)@.base.at(x as int, y as int),
            final(self).wf(),
            final(self)@ == (RuleView {
                base: old(self)@.base.with_entry(x as int, y as int, *final(entry)),
                ..old(self)@
            }),
    {
        self.base.get_mut(x, y)
    }

    /// Replaces what the base entry at (`x`, `y`) matches and derives the variants
    /// again; outside the template only the latter.
    pub fn set_from(&mut self, x: usize, y: usize, cell: RuleCellFrom)
        requires
            old(self).wf(),
        ensures
            final(self).wf(),
            final(self)@ == (RuleView {
                base: old(self)@.base.with_entry(
                    x as int,
                    y as int,
                    (cell, old(self)@.base.at(x as int, y as int).1),
                ),
                ..old(self)@
            }).regenerated(),
    {
        self.base.set_from(x, y, cell);
        self.generate_variants();
    }

    /// Replaces what the base entry at (`x`, `y`) writes and derives the variants
    /// again; outside the template only the latter.
    pub fn set_to(&mut self, x: usize, y: usize, cell: RuleCellTo)
        requires
            old(self).wf(),
        ensures
            final(self).wf(),
            final(self)@ == (RuleView {
                base: old(self)@.base.with_entry(
                    x as int,
                    y as int,
                    (old(self)@.base.at(x as int, y as int).0, cell),
                ),
                ..old(self)@
            }).regenerated(),
    {
        self.base.set_to(x, y, cell);
        self.generate_variants();
    }

    pub fn height(&self) -> (h: usize)
        ensures
            h == self@.base.height,
    {
        self.base.height()
    }

    pub fn width(&self) -> (w: usize)
        ensures
            w == self@.base.width,
    {
        self.base.width()
    }

    /// Takes the rule into the simulation or out of it.
    pub fn set_enabled(&mut self, enabled: bool)
        ensures
            final(self)@ == (RuleView { enabled, ..old(self)@ }),
    {
        self.enabled = enabled;
    }

    /// Sets the symmetries that the rule allows and derives the variants again.
    pub fn set_symmetries(&mut self, flip_x: bool, flip_y: bool, rotate: bool)
        requires
            old(self).wf(),
        ensures
            final(self).wf(),
            final(self)@ == (RuleView { flip_x, flip_y, rotate, ..old(self)@ }).regenerated(),
    {
        self.flip_x = flip_x;
        self.flip_y = flip_y;
        self.rotate = rotate;
        self.generate_variants();
    }

    /// The name of the rule.
    pub fn name(&self) -> (name: &String)
        ensures
            name@ == self@.name,
    {
        &self.name
    }

    /// Whether the rule may be mirrored left to right.
    pub fn flips_x(&self) -> (flip_x: bool)
        ensures
            flip_x == self@.flip_x,
    {
        self.flip_x
    }

    /// Whether the rule may be mirrored top to bottom.
    pub fn flips_y(&self) -> (flip_y: bool)
        ensures
            flip_y == self@.flip_y,
    {
        self.flip_y
    }

    /// Whether the rule may be rotated.
    pub fn rotates(&self) -> (rotate: bool)
        ensures
            rotate == self@.rotate,
    {
        self.rotate
    }

    /// Whether the rule takes part in the simulation.
    pub fn is_enabled(&self) -> (enabled: bool)
        ensures
            enabled == self@.enabled,
    {
        self.enabled
    }

    /// Out of 256: how often an application of the rule is given up.
    pub fn fail_rate(&self) -> (failrate: u8)
        ensures
            failrate == self@.failrate,
    {
        self.failrate
    }

    /// The base template.
    pub fn base(&self) -> (base: &SubRule)
        ensures
            base@ == self@.base,
    {
        &self.base
    }

    /// The variant at `index`.
    pub fn variant(&self, index: usize) -> (variant: &SubRule)
        requires
            index < self@.variants.len(),
        ensures
            variant@ == self@.variants[index as int],
    {
        &self.variants[index]
    }

    /// The greatest width among the variants, 0 where there is none.
    pub fn max_width(&self) -> (max: usize)
        ensures
            forall|i: int| 0 <= i < self@.variants.len() ==> (#[trigger] self@.variants[i]).width <= max,
            self@.variants.len() == 0 ==> max == 0,
            self@.variants.len() > 0 ==> exists|i: int|
                0 <= i < self@.variants.len() && (#[trigger] self@.variants[i]).width == max,
    {
        let mut max: usize = 0;
        let mut i: usize = 0;
        while i < self.variants.len()
            invariant
                i <= self.variants.len(),
                forall|k: int| 0 <= k < i ==> (#[trigger] self@.variants[k]).width <= max,
                i == 0 ==> max == 0,
                i > 0 ==> exists|k: int| 0 <= k < i && (#[trigger] self@.variants[k]).width == max,
            decreases self.variants.len() - i,
        {
            let w = self.variants[i].width();
            if w > max {
                max = w;
            }
            assert(self@.variants[i as int].width <= max);
            i += 1;
        }
        max
    }

    /// The greatest height among the variants, 0 where there is none.
    pub fn max_height(&self) -> (max: usize)
        ensures
            forall|i: int| 0 <= i < self@.variants.len() ==> (#[trigger] self@.variants[i]).height <= max,
            self@.variants.len() == 0 ==> max == 0,
            self@.variants.len() > 0 ==> exists|i: int|
                0 <= i < self@.variants.len() && (#[trigger] self@.variants[i]).height == max,
    {
        let mut max: usize = 0;
        let mut i: usize = 0;
        while i < self.variants.len()
            invariant
                i <= self.variants.len(),
                forall|k: int| 0 <= k < i ==> (#[trigger] self@.variants[k]).height <= max,
                i == 0 ==> max == 0,
                i > 0 ==> exists|k: int| 0 <= k < i && (#[trigger] self@.variants[k]).height == max,
            decreases self.variants.len() - i,
        {
            let h = self.variants[i].height();
            if h > max {
                max = h;
            }
            assert(self@.variants[i as int].height <= max);
            i += 1;
        }
        max
    }

    /// Resizes the base template and derives the variants again. Nothing changes where
    /// a side would fall below 1, or where the template would hold more entries than a
    /// machine word can count.
    pub fn resize(&mut self, params: ResizeParam)
        requires
            old(self).wf(),
        ensures
            final(self).wf(),
            !resizable(old(self)@.base, params.0 as int, params.1 as int) ==> final(self)@ == old(
                self,
            )@,
            resizable(old(self)@.base, params.0 as int, params.1 as int) ==> final(self)@ == (RuleView {
                base: resized(
                    old(self)@.base,
                    params.0 as int,
                    params.1 as int,
                    params.2 as int,
                    params.3 as int,
                ),
                ..old(self)@
            }).regenerated(),
    {
        let (dw, dh, dx, dy) = params;
        let old_width = self.base.width();
        let old_height = self.base.height();
        let wide: i128 = old_width as i128 + dw as i128;
        let high: i128 = old_height as i128 + dh as i128;
        if wide < 1 || high < 1 {
            return;
        }
        proof {
            assert(wide <= wide * high && high <= wide * high) by (nonlinear_arith)
                requires
                    wide >= 1,
                    high >= 1,
            ;
        }
        match wide.checked_mul(high) {
            Some(area) => {
                if area > usize::MAX as i128 {
                    return;
                }
            },
            None => {
                return;
            },
        }
        let new_width: usize = wide as usize;
        let new_height: usize = high as usize;
        let ghost target = resized(self@.base, dw as int, dh as int, dx as int, dy as int);
        let mut new_contents: Vec<(RuleCellFrom, RuleCellTo)> = Vec::new();
        let mut ny: usize = 0;
        while ny < new_height
            invariant
                self.wf(),
                self@ == old(self)@,
                old_width == self@.base.width,
                old_height == self@.base.height,
                target == resized(self@.base, dw as int, dh as int, dx as int, dy as int),
                new_width == self@.base.width + dw,
                new_height == self@.base.height + dh,
                new_width >= 1,
                new_width * new_height <= usize::MAX,
                ny <= new_height,
                new_contents@.len() == new_width * ny,
                forall|k: int| 0 <= k < new_contents@.len() ==> new_contents@[k] == target.cells[k],
            decreases new_height - ny,
        {
            let mut nx: usize = 0;
            while nx < new_width
                invariant
                    self.wf(),
                    self@ == old(self)@,
                    old_width == self@.base.width,
                    old_height == self@.base.height,
                    target == resized(self@.base, dw as int, dh as int, dx as int, dy as int),
                    new_width == self@.base.width + dw,
                    new_height == self@.base.height + dh,
                    new_width * new_height <= usize::MAX,
                    ny < new_height,
                    nx <= new_width,
                    new_contents@.len() == new_width * ny + nx,
                    forall|k: int| 0 <= k < new_contents@.len() ==> new_contents@[k] == target.cells[k],
                decreases new_width - nx,
            {
                proof {
                    lemma_position_index(nx as int, ny as int, new_width as int, new_height as int);
                }
                let from_x: i128 = nx as i128 + dx as i128;
                let from_y: i128 = ny as i128 + dy as i128;
                let entry = if 0 <= from_x && from_x < old_width as i128 && 0 <= from_y && from_y
                    < old_height as i128 {
                    self.base.get(from_x as usize, from_y as usize)
                } else {
                    (RuleCellFrom::Any, RuleCellTo::Keep)
                };
                new_contents.push(entry);
                nx += 1;
            }
            proof {
                assert(new_width * ny + new_width == new_width * (ny + 1)) by (nonlinear_arith);
            }
            ny += 1;
        }
        assert(new_contents@ =~= target.cells);
        match SubRule::from_contents(new_width, new_height, new_contents) {
            Some(base) => {
                self.base = base;
                self.generate_variants();
            },
            None => {},
        }
    }

    pub fn variant_count(&self) -> (count: usize)
        ensures
            count == self@.variants.len(),
    {
        self.variants.len()
    }

    /// Derives the variants again from the base template and the symmetries allowed.
    pub fn generate_variants(&mut self)
        requires
            old(self)@.base.wf(),
            old(self)@.base.origin_x == 0,
            old(self)@.base.origin_y == 0,
        ensures
            final(self).wf(),
            final(self)@ == old(self)@.regenerated(),
    {
        let mut variants: Vec<SubRule> = Vec::new();
        variants.push(self.base.clone());
        assert(views(variants@) =~= seq![self.base@]);

        if self.flip_x {
            transform_variants(&mut variants, Symmetry::FlipX);
        }
        if self.flip_y {
            transform_variants(&mut variants, Symmetry::FlipY);
        }
        if self.rotate {
            // 180° rotations (same as flipping x and y)
            transform_variants(&mut variants, Symmetry::Rotate180);
            // 90° rotations
            transform_variants(&mut variants, Symmetry::Rotate90);
        }
        self.variants = variants;
    }
}

} // verus!
