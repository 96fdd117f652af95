//! The variants of a rule: the images of its base template under the symmetries
//! that the rule allows, each kept once.

use vstd::prelude::*;
use crate::pattern::Pattern;
use crate::pattern::symmetry::{
    lemma_flip_x_twice, lemma_flip_y_twice, lemma_flips_commute, lemma_half_turn_is_two_flips,
    lemma_image_wf, lemma_quarter_turn_swaps_flips, lemma_quarter_turn_twice, Symmetry,
};

verus! {

/// The images under `t` of the first `n` templates of `vs` that `vs` does not hold, in order.
pub open spec fn fresh_images(vs: Seq<Pattern>, t: Symmetry, n: nat) -> Seq<Pattern>
    decreases n,
{
    if n == 0 {
        Seq::empty()
    } else {
        let rest = fresh_images(vs, t, (n - 1) as nat);
        let image = vs[n - 1].image(t);
        if vs.contains(image) {
            rest
        } else {
            rest.push(image)
        }
    }
}

/// `vs`, followed by the images of its templates under `t` that it did not hold.
pub open spec fn extended(vs: Seq<Pattern>, t: Symmetry) -> Seq<Pattern> {
    vs + fresh_images(vs, t, vs.len())
}

/// The variants of a rule with base template `base`: starting from the base alone, the
/// list is extended by mirroring left-right, then top-bottom, then by half a turn and
/// by a quarter turn, each only where the rule allows it.
pub open spec fn variants_of(base: Pattern, flip_x: bool, flip_y: bool, rotate: bool) -> Seq<Pattern> {
    let v0 = seq![base];
    let v1 = if flip_x {
        extended(v0, Symmetry::FlipX)
    } else {
        v0
    };
    let v2 = if flip_y {
        extended(v1, Symmetry::FlipY)
    } else {
        v1
    };
    if rotate {
        extended(extended(v2, Symmetry::Rotate180), Symmetry::Rotate90)
    } else {
        v2
    }
}

pub open spec fn all_wf(vs: Seq<Pattern>) -> bool {
    forall|i: int| 0 <= i < vs.len() ==> (#[trigger] vs[i]).wf()
}

/// Every image under `t` of a template of `vs` is in `vs` again.
pub open spec fn closed_under(vs: Seq<Pattern>, t: Symmetry) -> bool {
    forall|i: int| 0 <= i < vs.len() ==> vs.contains(#[trigger] vs[i].image(t))
}

impl Symmetry {
    /// The symmetry that, made before `t`, has the effect of `self` made after `t`.
    pub open spec fn behind(self, t: Symmetry) -> Symmetry {
        if t == Symmetry::Rotate90 && self == Symmetry::FlipX {
            Symmetry::FlipY
        } else if t == Symmetry::Rotate90 && self == Symmetry::FlipY {
            Symmetry::FlipX
        } else {
            self
        }
    }
}

/// Half a turn twice gives the template back.
pub proof fn lemma_half_turn_twice(p: Pattern)
    requires
        p.wf(),
    ensures
        p.image(Symmetry::Rotate180).image(Symmetry::Rotate180) == p,
{
    let x = p.image(Symmetry::FlipX);
    let h = p.image(Symmetry::Rotate180);
    lemma_image_wf(p, Symmetry::FlipX);
    lemma_image_wf(p, Symmetry::Rotate180);
    lemma_image_wf(x, Symmetry::FlipY);
    lemma_half_turn_is_two_flips(p);
    lemma_half_turn_is_two_flips(h);
    // h = x.FlipY, so h.FlipX.FlipY = x.FlipY.FlipX.FlipY = x.FlipX.FlipY.FlipY = p
    lemma_flips_commute(x);
    lemma_flip_x_twice(p);
    lemma_flip_y_twice(p);
}

/// Any symmetry but the quarter turn undoes itself.
pub proof fn lemma_twice(p: Pattern, t: Symmetry)
    requires
        p.wf(),
        t != Symmetry::Rotate90,
    ensures
        p.image(t).image(t) == p,
{
    match t {
        Symmetry::FlipX => lemma_flip_x_twice(p),
        Symmetry::FlipY => lemma_flip_y_twice(p),
        _ => lemma_half_turn_twice(p),
    }
}

/// A mirroring or half turn `s` made after `t` is `s.behind(t)` made before `t`.
pub proof fn lemma_swap(p: Pattern, t: Symmetry, s: Symmetry)
    requires
        p.wf(),
        s != Symmetry::Rotate90,
    ensures
        p.image(t).image(s) == p.image(s.behind(t)).image(t),
{
    let x = p.image(Symmetry::FlipX);
    let y = p.image(Symmetry::FlipY);
    let r = p.image(Symmetry::Rotate90);
    lemma_image_wf(p, Symmetry::FlipX);
    lemma_image_wf(p, Symmetry::FlipY);
    lemma_image_wf(p, Symmetry::Rotate90);
    lemma_image_wf(p, Symmetry::Rotate180);
    lemma_flips_commute(p);
    lemma_flip_x_twice(p);
    lemma_flip_y_twice(p);
    lemma_half_turn_is_two_flips(p);
    if t == Symmetry::Rotate90 {
        lemma_quarter_turn_swaps_flips(p);
        if s == Symmetry::Rotate180 {
            lemma_quarter_turn_twice(p);
            lemma_quarter_turn_twice(r);
        }
    } else if t != s {
        if t == Symmetry::FlipX && s == Symmetry::Rotate180 {
            lemma_half_turn_is_two_flips(x);
            lemma_flips_commute(x);
        } else if t == Symmetry::FlipY && s == Symmetry::Rotate180 {
            lemma_half_turn_is_two_flips(y);
        } else if t == Symmetry::Rotate180 && s == Symmetry::FlipX {
            lemma_half_turn_is_two_flips(x);
            lemma_flips_commute(x);
        } else if t == Symmetry::Rotate180 && s == Symmetry::FlipY {
            lemma_half_turn_is_two_flips(y);
            lemma_image_wf(x, Symmetry::FlipY);
            lemma_flip_y_twice(x);
        }
    }
}

/// Templates with the same image are the same template.
pub proof fn lemma_image_injective(p: Pattern, q: Pattern, t: Symmetry)
    requires
        p.wf(),
        q.wf(),
        p.image(t) == q.image(t),
    ensures
        p == q,
{
    if t == Symmetry::Rotate90 {
        lemma_quarter_turn_twice(p);
        lemma_quarter_turn_twice(q);
        lemma_half_turn_twice(p);
        lemma_half_turn_twice(q);
    } else {
        lemma_twice(p, t);
        lemma_twice(q, t);
    }
}

/// What `fresh_images` holds: images of the first `n` templates, none of them in `vs`,
/// no image twice, and every image of the first `n` templates is in `vs` or among them.
pub proof fn lemma_fresh_images(vs: Seq<Pattern>, t: Symmetry, n: nat)
    requires
        all_wf(vs),
        n <= vs.len(),
    ensures
        fresh_images(vs, t, n).len() <= n,
        forall|k: int|
            0 <= k < fresh_images(vs, t, n).len() ==> {
                let q = #[trigger] fresh_images(vs, t, n)[k];
                &&& q.wf()
                &&& !vs.contains(q)
                &&& exists|j: int| 0 <= j < n && q == vs[j].image(t)
            },
        forall|j: int|
            0 <= j < n ==> vs.contains((#[trigger] vs[j]).image(t)) || fresh_images(
                vs,
                t,
                n,
            ).contains(vs[j].image(t)),
    decreases n,
{
    if n > 0 {
        let rest = fresh_images(vs, t, (n - 1) as nat);
        let image = vs[n - 1].image(t);
        let all = fresh_images(vs, t, n);
        lemma_fresh_images(vs, t, (n - 1) as nat);
        lemma_image_wf(vs[n - 1], t);
        assert forall|k: int| 0 <= k < all.len() implies {
            let q = #[trigger] all[k];
            &&& q.wf()
            &&& !vs.contains(q)
            &&& exists|j: int| 0 <= j < n && q == vs[j].image(t)
        } by {
            if k < rest.len() {
                assert(all[k] == rest[k]);
                let j = choose|j: int| 0 <= j < n - 1 && rest[k] == vs[j].image(t);
                assert(0 <= j < n && all[k] == vs[j].image(t));
            } else {
                assert(all[k] == image);
                assert(0 <= n - 1 < n && all[k] == vs[n - 1].image(t));
            }
        }
        assert forall|j: int| 0 <= j < n implies vs.contains((#[trigger] vs[j]).image(t))
            || all.contains(vs[j].image(t)) by {
            if j < n - 1 {
                if rest.contains(vs[j].image(t)) {
                    let k = choose|k: int| 0 <= k < rest.len() && rest[k] == vs[j].image(t);
                    assert(all[k] == vs[j].image(t));
                }
            } else if !vs.contains(image) {
                assert(all[rest.len() as int] == image);
            }
        }
    }
}

/// `fresh_images` does not hold a template twice where `vs` does not.
pub proof fn lemma_fresh_images_distinct(vs: Seq<Pattern>, t: Symmetry, n: nat)
    requires
        all_wf(vs),
        vs.no_duplicates(),
        n <= vs.len(),
    ensures
        fresh_images(vs, t, n).no_duplicates(),
        forall|k: int|
            0 <= k < fresh_images(vs, t, n).len() ==> exists|j: int|
                0 <= j < n && #[trigger] fresh_images(vs, t, n)[k] == vs[j].image(t),
    decreases n,
{
    if n > 0 {
        let rest = fresh_images(vs, t, (n - 1) as nat);
        let image = vs[n - 1].image(t);
        let all = fresh_images(vs, t, n);
        lemma_fresh_images_distinct(vs, t, (n - 1) as nat);
        lemma_fresh_images(vs, t, n);
        if !vs.contains(image) {
            assert forall|k: int| 0 <= k < rest.len() implies rest[k] != image by {
                let j = choose|j: int| 0 <= j < n - 1 && rest[k] == vs[j].image(t);
                if rest[k] == image {
                    lemma_image_injective(vs[j], vs[n - 1], t);
                }
            }
        }
    }
}

/// What `extended` holds: `vs` first, then only images of its templates; every such
/// image is in it; it is at most twice as long; and it holds no template twice
/// where `vs` does not.
pub proof fn lemma_extended(vs: Seq<Pattern>, t: Symmetry)
    requires
        all_wf(vs),
    ensures
        all_wf(extended(vs, t)),
        vs.len() <= extended(vs, t).len() <= 2 * vs.len(),
        forall|i: int| 0 <= i < vs.len() ==> extended(vs, t)[i] == vs[i],
        forall|i: int| 0 <= i < vs.len() ==> extended(vs, t).contains(#[trigger] vs[i]),
        forall|i: int| 0 <= i < vs.len() ==> extended(vs, t).contains((#[trigger] vs[i]).image(t)),
        forall|k: int|
            vs.len() <= k < extended(vs, t).len() ==> exists|j: int|
                0 <= j < vs.len() && #[trigger] extended(vs, t)[k] == vs[j].image(t),
        vs.no_duplicates() ==> extended(vs, t).no_duplicates(),
        closed_under(vs, t) ==> extended(vs, t) == vs,
{
    let fresh = fresh_images(vs, t, vs.len());
    let ext = extended(vs, t);
    lemma_fresh_images(vs, t, vs.len());
    assert forall|i: int| 0 <= i < vs.len() implies ext.contains(#[trigger] vs[i]) by {
        assert(ext[i] == vs[i]);
    }
    assert forall|i: int| 0 <= i < vs.len() implies ext.contains((#[trigger] vs[i]).image(t)) by {
        let q = vs[i].image(t);
        if vs.contains(q) {
            let j = choose|j: int| 0 <= j < vs.len() && vs[j] == q;
            assert(ext[j] == q);
        } else {
            let k = choose|k: int| 0 <= k < fresh.len() && fresh[k] == q;
            assert(ext[vs.len() + k] == q);
        }
    }
    assert forall|k: int| vs.len() <= k < ext.len() implies exists|j: int|
        0 <= j < vs.len() && #[trigger] ext[k] == vs[j].image(t) by {
        assert(ext[k] == fresh[k - vs.len()]);
    }
    assert forall|i: int| 0 <= i < ext.len() implies (#[trigger] ext[i]).wf() by {
        if i >= vs.len() {
            assert(ext[i] == fresh[i - vs.len()]);
        }
    }
    if vs.no_duplicates() {
        lemma_fresh_images_distinct(vs, t, vs.len());
        assert forall|i: int, j: int| 0 <= i < ext.len() && 0 <= j < ext.len() && i != j implies ext[i]
            != ext[j] by {
            if i >= vs.len() {
                assert(ext[i] == fresh[i - vs.len()]);
            }
            if j >= vs.len() {
                assert(ext[j] == fresh[j - vs.len()]);
            }
        }
    }
    if closed_under(vs, t) {
        if fresh.len() > 0 {
            let q = fresh[0];
            let j = choose|j: int| 0 <= j < vs.len() && q == vs[j].image(t);
            assert(vs.contains(vs[j].image(t)));
        }
        assert(ext =~= vs);
    }
}

/// Extending by a mirroring or a half turn leaves the list closed under it.
pub proof fn lemma_extended_closed(vs: Seq<Pattern>, t: Symmetry)
    requires
        all_wf(vs),
        t != Symmetry::Rotate90,
    ensures
        closed_under(extended(vs, t), t),
{
    let ext = extended(vs, t);
    lemma_extended(vs, t);
    assert forall|i: int| 0 <= i < ext.len() implies ext.contains((#[trigger] ext[i]).image(t)) by {
        if i >= vs.len() {
            let j = choose|j: int| 0 <= j < vs.len() && ext[i] == vs[j].image(t);
            lemma_twice(vs[j], t);
            assert(ext.contains(vs[j]));
        }
    }
}

/// Extending by `t` keeps the list closed under a mirroring or half turn `s`, where it
/// was closed under `s` and under `s.behind(t)`.
pub proof fn lemma_extended_keeps(vs: Seq<Pattern>, t: Symmetry, s: Symmetry)
    requires
        all_wf(vs),
        s != Symmetry::Rotate90,
        closed_under(vs, s),
        closed_under(vs, s.behind(t)),
    ensures
        closed_under(extended(vs, t), s),
{
    let ext = extended(vs, t);
    lemma_extended(vs, t);
    assert forall|i: int| 0 <= i < ext.len() implies ext.contains((#[trigger] ext[i]).image(s)) by {
        if i < vs.len() {
            let q = vs[i].image(s);
            assert(vs.contains(q));
            let j = choose|j: int| 0 <= j < vs.len() && vs[j] == q;
            assert(ext.contains(vs[j]));
        } else {
            let j = choose|j: int| 0 <= j < vs.len() && ext[i] == vs[j].image(t);
            lemma_swap(vs[j], t, s);
            let q = vs[j].image(s.behind(t));
            assert(vs.contains(q));
            let k = choose|k: int| 0 <= k < vs.len() && vs[k] == q;
            assert(ext.contains(vs[k].image(t)));
        }
    }
}

/// Extending a list closed under the half turn by the quarter turn leaves it closed
/// under the quarter turn.
pub proof fn lemma_extended_by_quarter_turn(vs: Seq<Pattern>)
    requires
        all_wf(vs),
        closed_under(vs, Symmetry::Rotate180),
    ensures
        closed_under(extended(vs, Symmetry::Rotate90), Symmetry::Rotate90),
{
    let t = Symmetry::Rotate90;
    let ext = extended(vs, t);
    lemma_extended(vs, t);
    assert forall|i: int| 0 <= i < ext.len() implies ext.contains((#[trigger] ext[i]).image(t)) by {
        if i >= vs.len() {
            let j = choose|j: int| 0 <= j < vs.len() && ext[i] == vs[j].image(t);
            lemma_quarter_turn_twice(vs[j]);
            let q = vs[j].image(Symmetry::Rotate180);
            assert(vs.contains(q));
            let k = choose|k: int| 0 <= k < vs.len() && vs[k] == q;
            assert(ext.contains(vs[k]));
        }
    }
}

/// Of the two mirrorings and the half turn, a list closed under two is closed under the third.
pub proof fn lemma_closed_under_third(vs: Seq<Pattern>, a: Symmetry, b: Symmetry, c: Symmetry)
    requires
        all_wf(vs),
        a != Symmetry::Rotate90,
        b != Symmetry::Rotate90,
        c != Symmetry::Rotate90,
        a != b,
        b != c,
        a != c,
        closed_under(vs, a),
        closed_under(vs, b),
    ensures
        closed_under(vs, c),
{
    assert forall|i: int| 0 <= i < vs.len() implies vs.contains((#[trigger] vs[i]).image(c)) by {
        let p = vs[i];
        // the third symmetry is the other two, one after the other
        assert(p.image(c) == p.image(a).image(b)) by {
            let x = p.image(Symmetry::FlipX);
            lemma_image_wf(p, Symmetry::FlipX);
            lemma_image_wf(p, Symmetry::FlipY);
            lemma_image_wf(p, Symmetry::Rotate180);
            lemma_half_turn_is_two_flips(p);
            lemma_flips_commute(p);
            lemma_flip_x_twice(p);
            lemma_flip_y_twice(p);
            lemma_swap(p, a, b);
            lemma_swap(p, b, a);
            lemma_half_turn_is_two_flips(x);
            lemma_flips_commute(x);
            lemma_image_wf(x, Symmetry::FlipY);
            lemma_flip_y_twice(x);
            lemma_half_turn_is_two_flips(p.image(Symmetry::FlipY));
        }
        let q = p.image(a);
        assert(vs.contains(q));
        let j = choose|j: int| 0 <= j < vs.len() && vs[j] == q;
        assert(vs.contains(vs[j].image(b)));
    }
}

/// The variants of a well-formed base: all well formed, the base first, at most eight,
/// none twice, and closed under every symmetry that the rule allows. With rotation and
/// a mirroring allowed they are closed under all four symmetries.
pub proof fn lemma_variants(base: Pattern, flip_x: bool, flip_y: bool, rotate: bool)
    requires
        base.wf(),
    ensures
        all_wf(variants_of(base, flip_x, flip_y, rotate)),
        1 <= variants_of(base, flip_x, flip_y, rotate).len() <= 8,
        variants_of(base, flip_x, flip_y, rotate)[0] == base,
        variants_of(base, flip_x, flip_y, rotate).no_duplicates(),
        flip_x ==> closed_under(variants_of(base, flip_x, flip_y, rotate), Symmetry::FlipX),
        flip_y ==> closed_under(variants_of(base, flip_x, flip_y, rotate), Symmetry::FlipY),
        rotate ==> closed_under(variants_of(base, flip_x, flip_y, rotate), Symmetry::Rotate180),
        rotate ==> closed_under(variants_of(base, flip_x, flip_y, rotate), Symmetry::Rotate90),
        rotate && (flip_x || flip_y) ==> closed_under(
            variants_of(base, flip_x, flip_y, rotate),
            Symmetry::FlipX,
        ) && closed_under(variants_of(base, flip_x, flip_y, rotate), Symmetry::FlipY),
{
    let x = Symmetry::FlipX;
    let y = Symmetry::FlipY;
    let h = Symmetry::Rotate180;
    let q = Symmetry::Rotate90;
    let v0 = seq![base];
    let v1 = if flip_x { extended(v0, x) } else { v0 };
    let v2 = if flip_y { extended(v1, y) } else { v1 };
    assert(v0[0] == base);
    assert(all_wf(v0));
    assert(v0.no_duplicates());
    lemma_extended(v0, x);
    if flip_x {
        lemma_extended_closed(v0, x);
    }
    assert(all_wf(v1));
    lemma_extended(v1, y);
    if flip_y {
        lemma_extended_closed(v1, y);
        if flip_x {
            lemma_extended_keeps(v1, y, x);
        }
    }
    assert(all_wf(v2) && v2.len() <= 4 && v2[0] == base && v2.no_duplicates());
    if rotate {
        let v3 = extended(v2, h);
        let v4 = extended(v3, q);
        if flip_x && flip_y {
            lemma_closed_under_third(v2, x, y, h);
        }
        lemma_extended(v2, h);
        lemma_extended_closed(v2, h);
        if flip_x {
            lemma_extended_keeps(v2, h, x);
        }
        if flip_y {
            lemma_extended_keeps(v2, h, y);
        }
        if flip_x && !flip_y {
            lemma_closed_under_third(v3, x, h, y);
        }
        if flip_y && !flip_x {
            lemma_closed_under_third(v3, y, h, x);
        }
        assert(v3.len() <= 4);
        lemma_extended(v3, q);
        lemma_extended_by_quarter_turn(v3);
        lemma_extended_keeps(v3, q, h);
        if flip_x || flip_y {
            lemma_extended_keeps(v3, q, x);
            lemma_extended_keeps(v3, q, y);
        }
        assert(v4[0] == base);
    }
}

/// A template turned over several times, one symmetry after the other.
pub open spec fn image_by(p: Pattern, turns: Seq<Symmetry>) -> Pattern
    decreases turns.len(),
{
    if turns.len() == 0 {
        p
    } else {
        image_by(p, turns.drop_last()).image(turns.last())
    }
}

/// With both mirrorings and rotation allowed, the variants are closed under each of
/// the four symmetries, and there are at most eight of them.
pub proof fn lemma_all_symmetries(base: Pattern)
    requires
        base.wf(),
    ensures
        variants_of(base, true, true, true).len() <= 8,
        forall|t: Symmetry| closed_under(variants_of(base, true, true, true), t),
{
    lemma_variants(base, true, true, true);
    assert forall|t: Symmetry| closed_under(variants_of(base, true, true, true), t) by {
        match t {
            Symmetry::FlipX => {},
            Symmetry::FlipY => {},
            Symmetry::Rotate180 => {},
            Symmetry::Rotate90 => {},
        }
    }
}

/// With both mirrorings and rotation allowed, the variants are closed under the whole
/// symmetry group of the square: however a variant is mirrored and rotated, and
/// however often, the outcome is a variant again.
pub proof fn lemma_closed_under_the_group(base: Pattern, i: int, turns: Seq<Symmetry>)
    requires
        base.wf(),
        0 <= i < variants_of(base, true, true, true).len(),
    ensures
        variants_of(base, true, true, true).contains(
            image_by(variants_of(base, true, true, true)[i], turns),
        ),
    decreases turns.len(),
{
    let vs = variants_of(base, true, true, true);
    if turns.len() > 0 {
        lemma_closed_under_the_group(base, i, turns.drop_last());
        lemma_all_symmetries(base);
        let q = image_by(vs[i], turns.drop_last());
        let j = choose|j: int| 0 <= j < vs.len() && vs[j] == q;
        assert(closed_under(vs, turns.last()));
        assert(vs.contains(vs[j].image(turns.last())));
    }
}

} // verus!
