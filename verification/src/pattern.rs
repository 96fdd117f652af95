//! Rule templates: a rectangle of what to match and what to write.

use vstd::prelude::*;
use crate::cell::Cell;

pub mod symmetry;

verus! {

/// What a template entry asks of the cell under it.
#[derive(Clone, Copy, Debug, PartialEq, Eq, Structural)]
pub enum RuleCellFrom {
    /// matches anything
    Any,
    /// matches one cell type
    One(Cell),
    /// matches anything defined in the group referenced by this index
    Group(usize),
}

/// What a template entry does to the cell under it.
#[derive(Clone, Copy, Debug, PartialEq, Eq, Structural)]
pub enum RuleCellTo {
    /// don't modify this cell
    Keep,
    /// set to this cell
    One(Cell),
    /// randomly choose from the group
    GroupRandom(usize),
    /// copy the cell from the corresponding input position
    Copy(usize, usize),
}

impl Default for RuleCellFrom {
    fn default() -> (from: RuleCellFrom)
        ensures
            from == RuleCellFrom::Any,
    {
        RuleCellFrom::Any
    }
}

impl Default for RuleCellTo {
    fn default() -> (to: RuleCellTo)
        ensures
            to == RuleCellTo::Keep,
    {
        RuleCellTo::Keep
    }
}

/// The entry that stands wherever a template has none: match anything, change nothing.
pub open spec fn blank() -> (RuleCellFrom, RuleCellTo) {
    (RuleCellFrom::Any, RuleCellTo::Keep)
}

/// A template as a mathematical value: `cells` holds the entries row by row.
pub struct Pattern {
    pub width: int,
    pub height: int,
    pub origin_x: int,
    pub origin_y: int,
    pub cells: Seq<(RuleCellFrom, RuleCellTo)>,
}

impl Pattern {
    /// At least 1 by 1 with sides that a machine word can hold, one entry per position,
    /// the origin inside the rectangle.
    pub open spec fn wf(self) -> bool {
        &&& 1 <= self.width <= usize::MAX
        &&& 1 <= self.height <= usize::MAX
        &&& self.cells.len() == self.width * self.height
        &&& 0 <= self.origin_x < self.width
        &&& 0 <= self.origin_y < self.height
    }

    pub open spec fn inside(self, x: int, y: int) -> bool {
        0 <= x < self.width && 0 <= y < self.height
    }

    /// The entry at column `x`, row `y`; the blank entry outside the rectangle.
    pub open spec fn at(self, x: int, y: int) -> (RuleCellFrom, RuleCellTo) {
        if self.inside(x, y) {
            self.cells[x + self.width * y]
        } else {
            blank()
        }
    }

    /// The 1 by 1 template with a blank entry.
    pub open spec fn unit() -> Pattern {
        Pattern { width: 1, height: 1, origin_x: 0, origin_y: 0, cells: seq![blank()] }
    }

    /// This template with the entry at (`x`, `y`) replaced; unchanged outside the rectangle.
    pub open spec fn with_entry(self, x: int, y: int, entry: (RuleCellFrom, RuleCellTo)) -> Pattern {
        if self.inside(x, y) {
            Pattern { cells: self.cells.update(x + self.width * y, entry), ..self }
        } else {
            self
        }
    }
}

/// Row-major indexing: a position inside a `w` by `h` rectangle has an index below `w * h`,
/// from which the position can be read back.
pub proof fn lemma_position_index(x: int, y: int, w: int, h: int)
    requires
        0 <= x < w,
        0 <= y < h,
    ensures
        0 <= w * y,
        0 <= x + w * y < w * h,
        (x + w * y) % w == x,
        (x + w * y) / w == y,
{
    assert(0 <= w * y && x + w * y < w * h) by (nonlinear_arith)
        requires
            0 <= x < w,
            0 <= y < h,
    ;
    assert(w * y == y * w) by (nonlinear_arith);
    vstd::arithmetic::div_mod::lemma_fundamental_div_mod_converse(x + w * y, w, y, x);
}

/// Row-major indexing: an index below `w * h` names a position inside the rectangle.
pub proof fn lemma_index_position(i: int, w: int, h: int)
    requires
        0 < w,
        0 <= i < w * h,
    ensures
        0 <= i % w < w,
        0 <= i / w < h,
        i == i % w + w * (i / w),
{
    vstd::arithmetic::div_mod::lemma_fundamental_div_mod(i, w);
    vstd::arithmetic::div_mod::lemma_mod_bound(i, w);
    vstd::arithmetic::div_mod::lemma_div_pos_is_pos(i, w);
    vstd::arithmetic::div_mod::lemma_multiply_divide_lt(i, w, h);
}

/// A rectangular template with an origin, as stored.
#[derive(Debug)]
pub struct SubRule {
    width: usize,
    height: usize,
    /// offset from top-left corner used to find and sample matches fairly,
    /// normally only used by rotated/mirrored variants
    origin_x: usize,
    /// offset from top-left corner used to find and sample matches fairly,
    /// normally only used by rotated/mirrored variants
    origin_y: usize,
    contents: Vec<(RuleCellFrom, RuleCellTo)>,
}

impl View for SubRule {
    type V = Pattern;

    closed spec fn view(&self) -> Pattern {
        Pattern {
            width: self.width as int,
            height: self.height as int,
            origin_x: self.origin_x as int,
            origin_y: self.origin_y as int,
            cells: self.contents@,
        }
    }
}

impl Clone for SubRule {
    fn clone(&self) -> (copy: SubRule)
        ensures
            copy@ == self@,
    {
        let mut contents: Vec<(RuleCellFrom, RuleCellTo)> = Vec::new();
        let mut i: usize = 0;
        while i < self.contents.len()
            invariant
                i <= self.contents.len(),
                contents@ == self.contents@.subrange(0, i as int),
            decreases self.contents.len() - i,
        {
            contents.push(self.contents[i]);
            assert(contents@ == self.contents@.subrange(0, i + 1));
            i += 1;
        }
        assert(contents@ == self.contents@);
        SubRule {
            width: self.width,
            height: self.height,
            origin_x: self.origin_x,
            origin_y: self.origin_y,
            contents,
        }
    }
}

impl SubRule {
    pub open spec fn wf(&self) -> bool {
        self@.wf()
    }

    /// The 1 by 1 template with a blank entry.
    pub fn new() -> (sub: SubRule)
        ensures
            sub.wf(),
            sub@ == Pattern::unit(),
    {
        let mut contents: Vec<(RuleCellFrom, RuleCellTo)> = Vec::new();
        contents.push((RuleCellFrom::Any, RuleCellTo::Keep));
        SubRule { width: 1, height: 1, origin_x: 0, origin_y: 0, contents }
    }

    /// A template of the given size with its origin at the top-left corner, or `None`
    /// unless both sides are at least 1 and `contents` holds one entry per position.
    pub fn from_contents(
        width: usize,
        height: usize,
        contents: Vec<(RuleCellFrom, RuleCellTo)>,
    ) -> (sub: Option<SubRule>)
        ensures
            sub is Some <==> 1 <= width && 1 <= height && contents@.len() == width * height,
            sub matches Some(s) ==> s.wf() && s@ == (Pattern {
                width: width as int,
                height: height as int,
                origin_x: 0,
                origin_y: 0,
                cells: contents@,
            }),
    {
        if width < 1 || height < 1 {
            return None;
        }
        let len = contents.len();
        match width.checked_mul(height) {
            Some(area) => {
                if len == area {
                    Some(SubRule { width, height, origin_x: 0, origin_y: 0, contents })
                } else {
                    None
                }
            },
            None => None,
        }
    }

    pub fn width(&self) -> (w: usize)
        ensures
            w == self@.width,
    {
        self.width
    }

    pub fn height(&self) -> (h: usize)
        ensures
            h == self@.height,
    {
        self.height
    }

    pub fn origin_x(&self) -> (x: usize)
        ensures
            x == self@.origin_x,
    {
        self.origin_x
    }

    pub fn origin_y(&self) -> (y: usize)
        ensures
            y == self@.origin_y,
    {
        self.origin_y
    }

    /// Where the entry at column `x`, row `y` is stored.
    fn index_of(&self, x: usize, y: usize) -> (i: usize)
        requires
            self.wf(),
            x < self.width,
            y < self.height,
        ensures
            i == x + self.width * y,
            i < self.contents@.len(),
    {
        proof {
            lemma_position_index(x as int, y as int, self.width as int, self.height as int);
            vstd::std_specs::vec::axiom_spec_len(&self.contents);
        }
        x + self.width * y
    }

    /// The entry at column `x`, row `y`; the blank entry outside the rectangle.
    pub fn get(&self, x: usize, y: usize) -> (entry: (RuleCellFrom, RuleCellTo))
        requires
            self.wf(),
        ensures
            entry == self@.at(x as int, y as int),
    {
        if x >= self.width || y >= self.height {
            (RuleCellFrom::Any, RuleCellTo::Keep)
        } else {
            self.contents[self.index_of(x, y)]
        }
    }

    /// Replaces the entry at (`x`, `y`); does nothing outside the rectangle.
    pub fn set_both(&mut self, x: usize, y: usize, cells: (RuleCellFrom, RuleCellTo))
        requires
            old(self).wf(),
        ensures
            final(self).wf(),
            final(self)@ == old(self)@.with_entry(x as int, y as int, cells),
    {
        if x < self.width && y < self.height {
            let i = self.index_of(x, y);
            self.contents.set(i, cells);
        }
    }

    /// Replaces what the entry at (`x`, `y`) matches; does nothing outside the rectangle.
    pub fn set_from(&mut self, x: usize, y: usize, cell: RuleCellFrom)
        requires
            old(self).wf(),
        ensures
            final(self).wf(),
            final(self)@ == old(self)@.with_entry(
                x as int,
                y as int,
                (cell, old(self)@.at(x as int, y as int).1),
            ),
    {
        let entry = self.get(x, y);
        self.set_both(x, y, (cell, entry.1));
    }

    /// Replaces what the entry at (`x`, `y`) writes; does nothing outside the rectangle.
    pub fn set_to(&mut self, x: usize, y: usize, cell: RuleCellTo)
        requires
            old(self).wf(),
        ensures
            final(self).wf(),
            final(self)@ == old(self)@.with_entry(
                x as int,
                y as int,
                (old(self)@.at(x as int, y as int).0, cell),
            ),
    {
        let entry = self.get(x, y);
        self.set_both(x, y, (entry.0, cell));
    }

    /// A handle on the entry at (`x`, `y`), through which it can be rewritten in place.
    pub fn get_mut(&mut self, x: usize, y: usize) -> (entry: &mut (RuleCellFrom, RuleCellTo))
        requires
            old(self).wf(),
            x < old(self)@.width,
            y < old(self)@.height,
        ensures
            *entry == old(self)@.at(x as int, y as int),
            final(self).wf(),
            final(self)@ == old(self)@.with_entry(x as int, y as int, *final(entry)),
    {
        let i = self.index_of(x, y);
        &mut self.contents[i]
    }

    /// Whether two templates have the same size, origin and entries.
    pub fn same_as(&self, other: &SubRule) -> (same: bool)
        ensures
            same == (self@ == other@),
    {
        if self.width != other.width || self.height != other.height
            || self.origin_x != other.origin_x || self.origin_y != other.origin_y
            || self.contents.len() != other.contents.len() {
            return false;
        }
        let mut i: usize = 0;
        while i < self.contents.len()
            invariant
                i <= self.contents.len(),
                self.contents.len() == other.contents.len(),
                forall|k: int| 0 <= k < i ==> self.contents@[k] == other.contents@[k],
            decreases self.contents.len() - i,
        {
            let a = self.contents[i];
            let b = other.contents[i];
            if a.0 != b.0 || a.1 != b.1 {
                return false;
            }
            i += 1;
        }
        assert(self.contents@ =~= other.contents@);
        true
    }
}

} // verus!
