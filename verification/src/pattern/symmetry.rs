//! The images of a template under mirroring and rotation.

use vstd::prelude::*;
use crate::pattern::{
    lemma_index_position, lemma_position_index, Pattern, RuleCellFrom, RuleCellTo, SubRule,
};

verus! {

/// A way to turn a template over: mirror it, or rotate it by a half or a quarter turn.
#[derive(Clone, Copy, Debug, PartialEq, Eq, Structural)]
pub enum Symmetry {
    /// left and right change places
    FlipX,
    /// top and bottom change places
    FlipY,
    /// half a turn
    Rotate180,
    /// a quarter turn
    Rotate90,
}

/// Coordinate `c` seen from the other end of a side of length `n`. A coordinate that
/// lies off the side stays where it is, and so stays off the side.
pub open spec fn mirror(c: int, n: int) -> int {
    if 0 <= c < n {
        n - 1 - c
    } else {
        c
    }
}

impl Symmetry {
    /// The width of the image of a `w` by `h` template.
    pub open spec fn image_width(self, w: int, h: int) -> int {
        if self == Symmetry::Rotate90 {
            h
        } else {
            w
        }
    }

    /// The height of the image of a `w` by `h` template.
    pub open spec fn image_height(self, w: int, h: int) -> int {
        if self == Symmetry::Rotate90 {
            w
        } else {
            h
        }
    }

    /// Where position (`x`, `y`) of a `w` by `h` template lies in the image.
    pub open spec fn carries(self, x: int, y: int, w: int, h: int) -> (int, int) {
        match self {
            Symmetry::FlipX => (mirror(x, w), y),
            Symmetry::FlipY => (x, mirror(y, h)),
            Symmetry::Rotate180 => (mirror(x, w), mirror(y, h)),
            Symmetry::Rotate90 => (mirror(y, h), x),
        }
    }

    /// The position of a `w` by `h` template whose entry lies at (`x`, `y`) in the image.
    pub open spec fn source(self, x: int, y: int, w: int, h: int) -> (int, int) {
        match self {
            Symmetry::FlipX => (w - 1 - x, y),
            Symmetry::FlipY => (x, h - 1 - y),
            Symmetry::Rotate180 => (w - 1 - x, h - 1 - y),
            Symmetry::Rotate90 => (y, h - 1 - x),
        }
    }

    /// What an entry writes once the template is turned over: a copy follows its source.
    pub open spec fn carries_to(self, to: RuleCellTo, w: int, h: int) -> RuleCellTo {
        match to {
            RuleCellTo::Copy(cx, cy) => {
                let (nx, ny) = self.carries(cx as int, cy as int, w, h);
                RuleCellTo::Copy(nx as usize, ny as usize)
            },
            other => other,
        }
    }

    /// The entry of the image of `p` at (`x`, `y`).
    pub open spec fn image_entry(self, p: Pattern, x: int, y: int) -> (RuleCellFrom, RuleCellTo) {
        let (sx, sy) = self.source(x, y, p.width, p.height);
        let entry = p.at(sx, sy);
        (entry.0, self.carries_to(entry.1, p.width, p.height))
    }

    fn mirrored(c: usize, n: usize) -> (m: usize)
        ensures
            m == mirror(c as int, n as int),
    {
        if c < n {
            n - 1 - c
        } else {
            c
        }
    }

    fn carry(self, x: usize, y: usize, w: usize, h: usize) -> (to: (usize, usize))
        ensures
            (to.0 as int, to.1 as int) == self.carries(x as int, y as int, w as int, h as int),
    {
        match self {
            Symmetry::FlipX => (Self::mirrored(x, w), y),
            Symmetry::FlipY => (x, Self::mirrored(y, h)),
            Symmetry::Rotate180 => (Self::mirrored(x, w), Self::mirrored(y, h)),
            Symmetry::Rotate90 => (Self::mirrored(y, h), x),
        }
    }
}

impl Pattern {
    /// This template turned over: its size, its origin, its entries and the sources
    /// of its copies all move together.
    #[verifier::opaque]
    pub open spec fn image(self, t: Symmetry) -> Pattern {
        let width = t.image_width(self.width, self.height);
        let height = t.image_height(self.width, self.height);
        let origin = t.carries(self.origin_x, self.origin_y, self.width, self.height);
        Pattern {
            width,
            height,
            origin_x: origin.0,
            origin_y: origin.1,
            cells: Seq::new(
                (width * height) as nat,
                |i: int| t.image_entry(self, i % width, i / width),
            ),
        }
    }
}

/// The image of a well-formed template is well formed; a quarter turn swaps its sides.
pub proof fn lemma_image_wf(p: Pattern, t: Symmetry)
    requires
        p.wf(),
    ensures
        p.image(t).wf(),
        p.image(t).width == t.image_width(p.width, p.height),
        p.image(t).height == t.image_height(p.width, p.height),
        (p.image(t).origin_x, p.image(t).origin_y) == t.carries(
            p.origin_x,
            p.origin_y,
            p.width,
            p.height,
        ),
{
    reveal(Pattern::image);
    assert(p.width * p.height == p.height * p.width) by (nonlinear_arith);
}

/// Inside the image, each entry is the one found at its source, with copies carried along.
pub proof fn lemma_image_at(p: Pattern, t: Symmetry, x: int, y: int)
    requires
        p.wf(),
        p.image(t).inside(x, y),
    ensures
        p.image(t).at(x, y) == t.image_entry(p, x, y),
        p.inside(t.source(x, y, p.width, p.height).0, t.source(x, y, p.width, p.height).1),
{
    reveal(Pattern::image);
    let q = p.image(t);
    lemma_image_wf(p, t);
    lemma_position_index(x, y, q.width, q.height);
}

/// Two well-formed templates with the same size, origin and entries are the same template.
pub proof fn lemma_pattern_ext(p: Pattern, q: Pattern)
    requires
        p.wf(),
        q.wf(),
        p.width == q.width,
        p.height == q.height,
        p.origin_x == q.origin_x,
        p.origin_y == q.origin_y,
        forall|x: int, y: int| p.inside(x, y) ==> p.at(x, y) == q.at(x, y),
    ensures
        p == q,
{
    assert forall|i: int| 0 <= i < p.cells.len() implies p.cells[i] == q.cells[i] by {
        lemma_index_position(i, p.width, p.height);
        assert(p.at(i % p.width, i / p.width) == q.at(i % p.width, i / p.width));
    }
    assert(p.cells =~= q.cells);
}

/// The entry of a template turned over twice, read back from the template itself.
pub proof fn lemma_two_turns_at(p: Pattern, a: Symmetry, b: Symmetry, x: int, y: int)
    requires
        p.wf(),
        p.image(a).image(b).inside(x, y),
    ensures
        ({
            let m = p.image(a);
            let (mx, my) = b.source(x, y, m.width, m.height);
            let (sx, sy) = a.source(mx, my, p.width, p.height);
            &&& p.inside(sx, sy)
            &&& p.image(a).image(b).at(x, y) == (
                p.at(sx, sy).0,
                b.carries_to(a.carries_to(p.at(sx, sy).1, p.width, p.height), m.width, m.height),
            )
        }),
{
    let m = p.image(a);
    lemma_image_wf(p, a);
    lemma_image_wf(m, b);
    lemma_image_at(m, b, x, y);
    let (mx, my) = b.source(x, y, m.width, m.height);
    lemma_image_at(p, a, mx, my);
}

/// Mirroring left and right twice gives the template back.
pub proof fn lemma_flip_x_twice(p: Pattern)
    requires
        p.wf(),
    ensures
        p.image(Symmetry::FlipX).image(Symmetry::FlipX) == p,
{
    let l = p.image(Symmetry::FlipX).image(Symmetry::FlipX);
    lemma_image_wf(p, Symmetry::FlipX);
    lemma_image_wf(p.image(Symmetry::FlipX), Symmetry::FlipX);
    assert forall|x: int, y: int| l.inside(x, y) implies l.at(x, y) == p.at(x, y) by {
        lemma_two_turns_at(p, Symmetry::FlipX, Symmetry::FlipX, x, y);
    }
    lemma_pattern_ext(l, p);
}

/// Mirroring top and bottom twice gives the template back.
pub proof fn lemma_flip_y_twice(p: Pattern)
    requires
        p.wf(),
    ensures
        p.image(Symmetry::FlipY).image(Symmetry::FlipY) == p,
{
    let l = p.image(Symmetry::FlipY).image(Symmetry::FlipY);
    lemma_image_wf(p, Symmetry::FlipY);
    lemma_image_wf(p.image(Symmetry::FlipY), Symmetry::FlipY);
    assert forall|x: int, y: int| l.inside(x, y) implies l.at(x, y) == p.at(x, y) by {
        lemma_two_turns_at(p, Symmetry::FlipY, Symmetry::FlipY, x, y);
    }
    lemma_pattern_ext(l, p);
}

/// The two mirrorings can be made in either order.
pub proof fn lemma_flips_commute(p: Pattern)
    requires
        p.wf(),
    ensures
        p.image(Symmetry::FlipX).image(Symmetry::FlipY) == p.image(Symmetry::FlipY).image(
            Symmetry::FlipX,
        ),
{
    let l = p.image(Symmetry::FlipX).image(Symmetry::FlipY);
    let r = p.image(Symmetry::FlipY).image(Symmetry::FlipX);
    lemma_image_wf(p, Symmetry::FlipX);
    lemma_image_wf(p.image(Symmetry::FlipX), Symmetry::FlipY);
    lemma_image_wf(p, Symmetry::FlipY);
    lemma_image_wf(p.image(Symmetry::FlipY), Symmetry::FlipX);
    assert forall|x: int, y: int| l.inside(x, y) implies l.at(x, y) == r.at(x, y) by {
        lemma_two_turns_at(p, Symmetry::FlipX, Symmetry::FlipY, x, y);
        lemma_two_turns_at(p, Symmetry::FlipY, Symmetry::FlipX, x, y);
    }
    lemma_pattern_ext(l, r);
}

/// Half a turn is both mirrorings, one after the other.
pub proof fn lemma_half_turn_is_two_flips(p: Pattern)
    requires
        p.wf(),
    ensures
        p.image(Symmetry::Rotate180) == p.image(Symmetry::FlipX).image(Symmetry::FlipY),
{
    let l = p.image(Symmetry::Rotate180);
    let r = p.image(Symmetry::FlipX).image(Symmetry::FlipY);
    lemma_image_wf(p, Symmetry::Rotate180);
    lemma_image_wf(p, Symmetry::FlipX);
    lemma_image_wf(p.image(Symmetry::FlipX), Symmetry::FlipY);
    assert forall|x: int, y: int| l.inside(x, y) implies l.at(x, y) == r.at(x, y) by {
        lemma_image_at(p, Symmetry::Rotate180, x, y);
        lemma_two_turns_at(p, Symmetry::FlipX, Symmetry::FlipY, x, y);
    }
    lemma_pattern_ext(l, r);
}

/// Two quarter turns make half a turn.
pub proof fn lemma_quarter_turn_twice(p: Pattern)
    requires
        p.wf(),
    ensures
        p.image(Symmetry::Rotate90).image(Symmetry::Rotate90) == p.image(Symmetry::Rotate180),
{
    let l = p.image(Symmetry::Rotate90).image(Symmetry::Rotate90);
    let r = p.image(Symmetry::Rotate180);
    lemma_image_wf(p, Symmetry::Rotate90);
    lemma_image_wf(p.image(Symmetry::Rotate90), Symmetry::Rotate90);
    lemma_image_wf(p, Symmetry::Rotate180);
    assert forall|x: int, y: int| l.inside(x, y) implies l.at(x, y) == r.at(x, y) by {
        lemma_two_turns_at(p, Symmetry::Rotate90, Symmetry::Rotate90, x, y);
        lemma_image_at(p, Symmetry::Rotate180, x, y);
    }
    lemma_pattern_ext(l, r);
}

/// A quarter turn followed by a mirroring is the other mirroring followed by a quarter turn.
pub proof fn lemma_quarter_turn_swaps_flips(p: Pattern)
    requires
        p.wf(),
    ensures
        p.image(Symmetry::Rotate90).image(Symmetry::FlipX) == p.image(Symmetry::FlipY).image(
            Symmetry::Rotate90,
        ),
        p.image(Symmetry::Rotate90).image(Symmetry::FlipY) == p.image(Symmetry::FlipX).image(
            Symmetry::Rotate90,
        ),
{
    lemma_image_wf(p, Symmetry::Rotate90);
    lemma_image_wf(p, Symmetry::FlipX);
    lemma_image_wf(p, Symmetry::FlipY);
    lemma_image_wf(p.image(Symmetry::Rotate90), Symmetry::FlipX);
    lemma_image_wf(p.image(Symmetry::Rotate90), Symmetry::FlipY);
    lemma_image_wf(p.image(Symmetry::FlipX), Symmetry::Rotate90);
    lemma_image_wf(p.image(Symmetry::FlipY), Symmetry::Rotate90);
    {
        let l = p.image(Symmetry::Rotate90).image(Symmetry::FlipX);
        let r = p.image(Symmetry::FlipY).image(Symmetry::Rotate90);
        assert forall|x: int, y: int| l.inside(x, y) implies l.at(x, y) == r.at(x, y) by {
            lemma_two_turns_at(p, Symmetry::Rotate90, Symmetry::FlipX, x, y);
            lemma_two_turns_at(p, Symmetry::FlipY, Symmetry::Rotate90, x, y);
        }
        lemma_pattern_ext(l, r);
    }
    {
        let l = p.image(Symmetry::Rotate90).image(Symmetry::FlipY);
        let r = p.image(Symmetry::FlipX).image(Symmetry::Rotate90);
        assert forall|x: int, y: int| l.inside(x, y) implies l.at(x, y) == r.at(x, y) by {
            lemma_two_turns_at(p, Symmetry::Rotate90, Symmetry::FlipY, x, y);
            lemma_two_turns_at(p, Symmetry::FlipX, Symmetry::Rotate90, x, y);
        }
        lemma_pattern_ext(l, r);
    }
}

impl SubRule {
    /// This template turned over.
    pub fn transformed(&self, t: Symmetry) -> (image: SubRule)
        requires
            self.wf(),
        ensures
            image.wf(),
            image@ == self@.image(t),
    {
        let quarter = t == Symmetry::Rotate90;
        let width = if quarter { self.height } else { self.width };
        let height = if quarter { self.width } else { self.height };
        let origin = t.carry(self.origin_x, self.origin_y, self.width, self.height);
        let ghost target = self@.image(t);
        proof {
            lemma_image_wf(self@, t);
        }
        let mut contents: Vec<(RuleCellFrom, RuleCellTo)> = Vec::new();
        let mut y: usize = 0;
        while y < height
            invariant
                self.wf(),
                target == self@.image(t),
                target.wf(),
                target.width == width,
                target.height == height,
                y <= height,
                contents@.len() == width * y,
                forall|k: int| 0 <= k < contents@.len() ==> contents@[k] == target.cells[k],
            decreases height - y,
        {
            let mut x: usize = 0;
            while x < width
                invariant
                    self.wf(),
                    target == self@.image(t),
                    target.wf(),
                    target.width == width,
                    target.height == height,
                    y < height,
                    x <= width,
                    contents@.len() == width * y + x,
                    forall|k: int| 0 <= k < contents@.len() ==> contents@[k] == target.cells[k],
                decreases width - x,
            {
                proof {
                    lemma_position_index(x as int, y as int, width as int, height as int);
                    lemma_image_at(self@, t, x as int, y as int);
                }
                let (sx, sy) = match t {
                    Symmetry::FlipX => (self.width - 1 - x, y),
                    Symmetry::FlipY => (x, self.height - 1 - y),
                    Symmetry::Rotate180 => (self.width - 1 - x, self.height - 1 - y),
                    Symmetry::Rotate90 => (y, self.height - 1 - x),
                };
                let entry = self.get(sx, sy);
                let to = match entry.1 {
                    RuleCellTo::Copy(cx, cy) => {
                        let (nx, ny) = t.carry(cx, cy, self.width, self.height);
                        RuleCellTo::Copy(nx, ny)
                    },
                    other => other,
                };
                contents.push((entry.0, to));
                x += 1;
            }
            proof {
                assert(width * y + width == width * (y + 1)) by (nonlinear_arith);
            }
            y += 1;
        }
        assert(contents@ =~= target.cells);
        SubRule { width, height, origin_x: origin.0, origin_y: origin.1, contents }
    }
}

} // verus!
